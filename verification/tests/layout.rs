use dsb::cell::Style;
use dsb::runs::shaping_runs;
use dsb::undercurl::{curl_column_writes, curl_layout, curl_row_at, Curl};
use dsb::Cell;

#[test]
fn curl_layout_examples() {
    assert_eq!(
        curl_layout(10, 20, 15, 2),
        Curl { max_x: 9, max_y: 19, position: 17, half_height: 1, thickness: 1 }
    );
    assert_eq!(
        curl_layout(10, 20, 2, 2),
        Curl { max_x: 9, max_y: 19, position: 10, half_height: 4, thickness: 1 }
    );
    assert_eq!(
        curl_layout(4, 8, 7, 2),
        Curl { max_x: 3, max_y: 7, position: 6, half_height: 1, thickness: 0 }
    );
    assert_eq!(
        curl_layout(4, 40, 3, 5),
        Curl { max_x: 3, max_y: 39, position: 21, half_height: 9, thickness: 3 }
    );
}

#[test]
fn curl_rows_stay_inside() {
    assert_eq!(curl_row_at(-3, 2, 10), 0);
    assert_eq!(curl_row_at(5, 2, 6), 6);
    assert_eq!(curl_row_at(1, 2, 10), 3);
}

#[test]
fn curl_column_example() {
    let c = Curl { max_x: 9, max_y: 19, position: 10, half_height: 4, thickness: 1 };
    assert_eq!(
        curl_column_writes(c, 4, -1, 0, 100),
        vec![(4, 9, 155), (4, 10, 100), (4, 10, 255)]
    );
    let t = Curl { thickness: 3, ..c };
    assert_eq!(
        curl_column_writes(t, 0, 8, 9, 0),
        vec![(0, 18, 255), (0, 19, 0), (0, 19, 255), (0, 19, 255), (0, 19, 255)]
    );
}

fn row(flags: &[u8]) -> Vec<Cell> {
    flags
        .iter()
        .map(|&f| (Style::default() | f).basic('x'))
        .collect()
}

#[test]
fn runs_split_by_italic() {
    let cells = row(&[0, Style::ITALIC, Style::ITALIC | Style::BOLD, 0, Style::DIM, Style::ITALIC]);
    assert_eq!(shaping_runs(&cells, true), vec![(1, 3), (5, 6)]);
    assert_eq!(shaping_runs(&cells, false), vec![(0, 1), (3, 5)]);
}

#[test]
fn runs_of_uniform_and_empty_rows() {
    let cells = row(&[0, 0, 0]);
    assert_eq!(shaping_runs(&cells, false), vec![(0, 3)]);
    assert_eq!(shaping_runs(&cells, true), vec![]);
    assert_eq!(shaping_runs(&[], true), vec![]);
}
