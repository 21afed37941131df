use edit_distance::engine::DistanceMatrix;

#[test]
fn rendered_table_matches_cell_by_cell() {
    let mut m = DistanceMatrix::new("ab", "c");
    let d = m.get_distance(None);
    assert_eq!(d, 3);
    assert_eq!(m.render(), "  # a b\n# 0 1 2 \nc 1 2 3 \n");
}

#[test]
fn rendered_empty_table_is_the_margin_and_one_zero() {
    let mut m = DistanceMatrix::new("", "");
    m.get_distance(None);
    assert_eq!(m.render(), "  #\n# 0 \n");
}

#[test]
fn render_reads_the_table_without_filling_it() {
    let m = DistanceMatrix::new("a", "b");
    assert_eq!(m.render(), "  # a\n# 0 0 \nb 0 0 \n");
}

#[test]
fn render_header_lists_from_characters_in_order() {
    let mut m = DistanceMatrix::new("kitten", "sitting");
    m.get_distance(None);
    let text = m.render();
    let mut lines = text.lines();
    let header = lines.next().unwrap();
    assert_eq!(header, "  # k i t t e n");

    // One line per table row, each labelled as rendered: `#` for the base
    // row, then the target characters in order.
    let labels: Vec<char> = lines
        .map(|line| line.chars().next().unwrap())
        .collect();
    assert_eq!(labels, vec!['#', 's', 'i', 't', 't', 'i', 'n', 'g']);

    // Every row line shows one space-terminated cell per column.
    for line in text.lines().skip(1) {
        let cells = line[2..].split(' ').filter(|p| !p.is_empty()).count();
        assert_eq!(cells, 7);
    }
}

#[test]
fn rendered_distances_render_multi_digit_cells() {
    let mut m = DistanceMatrix::new("", "aaaaaaaaaaaa");
    let d = m.get_distance(None);
    assert_eq!(d, 12);
    let text = m.render();
    let last_line = text.lines().last().unwrap();
    assert_eq!(last_line, "a 12 ");
}
