use road_graphs::csr::{from_adjacency_arrays, from_adjacency_arrays_directed};
use road_graphs::edge_text::{pace_edges, read_edge_list_text};
use road_graphs::graph::Graph;

fn neighbours(g: &Graph, u: usize) -> Vec<usize> {
    let mut v = g.get_neighbors(u).to_vec();
    v.sort();
    v
}

#[test]
fn adjacency_arrays_give_neighbour_slices() {
    // first_out ends with one entry past the last node.
    let g = from_adjacency_arrays(vec![0, 2, 3, 5], vec![1, 2, 0, 0, 1]);
    assert_eq!(g.get_num_nodes(), 3);
    assert_eq!(neighbours(&g, 0), vec![1, 2]);
    assert_eq!(neighbours(&g, 1), vec![0]);
    assert_eq!(neighbours(&g, 2), vec![0, 1]);
}

#[test]
fn adjacency_arrays_last_node_runs_to_the_end_of_head() {
    // Without the closing entry the last node takes the rest of `head`.
    let g = from_adjacency_arrays(vec![0, 1, 2], vec![1, 0, 1]);
    assert_eq!(g.get_num_nodes(), 2);
    assert_eq!(neighbours(&g, 1), vec![0, 1]);
}

#[test]
fn directed_adjacency_arrays() {
    let g = from_adjacency_arrays_directed(&vec![0, 2, 2, 3], &vec![1, 2, 0]);
    assert_eq!(g.get_num_nodes(), 3);
    assert_eq!(neighbours(&g, 0), vec![1, 2]);
    assert_eq!(neighbours(&g, 1), Vec::<usize>::new());
    assert_eq!(neighbours(&g, 2), vec![0]);
    assert!(!g.has_edge(1, 0));
}

#[test]
fn directed_adjacency_arrays_skip_empty_ranges() {
    // A range that runs backwards holds no edge.
    let g = from_adjacency_arrays_directed(&vec![2, 0, 1], &vec![1, 0]);
    assert_eq!(g.get_num_nodes(), 2);
    assert_eq!(neighbours(&g, 0), Vec::<usize>::new());
    assert_eq!(neighbours(&g, 1), vec![1]);
}

#[test]
fn edge_list_text_skips_header_and_bad_lines() {
    let text = b"3 2\n0 1\n1 2 7\nx 3\n4\n\n  5\t6\r\n+7 8\n";
    assert_eq!(read_edge_list_text(text), vec![(0, 1), (1, 2), (5, 6), (7, 8)]);
}

#[test]
fn edge_list_text_without_final_newline() {
    assert_eq!(read_edge_list_text(b"h\n1 2\n3 4"), vec![(1, 2), (3, 4)]);
    assert_eq!(read_edge_list_text(b""), Vec::<(usize, usize)>::new());
    assert_eq!(read_edge_list_text(b"only a header"), Vec::<(usize, usize)>::new());
}

#[test]
fn edge_list_text_rejects_overflow_and_signs() {
    let text = b"h\n18446744073709551616 1\n-1 2\n+ 3\n18446744073709551615 0\n";
    let max = usize::MAX;
    if max == 18446744073709551615 {
        assert_eq!(read_edge_list_text(text), vec![(max, 0)]);
    }
}

#[test]
fn pace_text_counts_from_one() {
    let text = b"p tw 3 2\n1 2\n2 3\n";
    assert_eq!(pace_edges(text), Some(vec![(0, 1), (1, 2)]));
    let g = Graph::from_pace_text(text).unwrap();
    assert_eq!(g.get_num_nodes(), 3);
    assert!(g.has_edge(0, 1) && g.has_edge(2, 1));
    assert_eq!(g.get_num_edges(), 2);
}

#[test]
fn pace_text_rejects_bad_lines() {
    assert_eq!(pace_edges(b"p tw 2 1\n0 1\n"), None);
    assert_eq!(pace_edges(b"p tw 2 1\n1\n"), None);
    assert_eq!(pace_edges(b"p tw 2 1\n1 2\n\n"), None);
    assert!(Graph::from_pace_text(b"p\n1 x\n").is_none());
    assert_eq!(pace_edges(b"p tw 0 0\n"), Some(vec![]));
}

#[test]
fn pace_text_is_header_and_forward_edges() {
    let g = Graph::from_edge_list(vec![(0, 1), (1, 2)]);
    let text = String::from_utf8(g.pace_text()).unwrap();
    let mut lines: Vec<&str> = text.lines().collect();
    assert_eq!(lines[0], "p tw 3 2");
    lines.remove(0);
    lines.sort();
    assert_eq!(lines, vec!["1 2", "2 3"]);
    assert!(text.ends_with('\n'));
}

#[test]
fn pace_text_reads_back() {
    let g = Graph::from_edge_list(vec![(0, 11), (11, 3), (3, 0), (5, 11), (10, 9), (9, 11)]);
    let h = Graph::from_pace_text(&g.pace_text()).unwrap();
    assert_eq!(h.get_num_nodes(), g.get_num_nodes());
    for u in 0..g.get_num_nodes() {
        let mut a = g.get_neighbors(u).to_vec();
        let mut b = h.get_neighbors(u).to_vec();
        a.sort();
        b.sort();
        assert_eq!(a, b);
    }
}

#[test]
fn adjacency_arrays_read_back() {
    let g = Graph::from_edge_list(vec![(0, 1), (1, 2), (2, 0), (3, 1)]);
    let (xadj, adjncy) = g.get_adjacency_array();
    let first_out: Vec<usize> = xadj.iter().map(|&x| x as usize).collect();
    let head: Vec<usize> = adjncy.iter().map(|&x| x as usize).collect();
    let h = from_adjacency_arrays(first_out, head);
    assert_eq!(h.get_num_nodes(), g.get_num_nodes());
    for u in 0..g.get_num_nodes() {
        assert_eq!(neighbours(&g, u), neighbours(&h, u));
    }
}

#[test]
fn metis_text_lists_neighbours_from_one() {
    let g = Graph::from_edge_list(vec![(0, 1), (0, 2)]);
    let text = String::from_utf8(g.metis_text()).unwrap();
    let lines: Vec<&str> = text.split('\n').collect();
    assert_eq!(lines[0], "3 2");
    let mut first: Vec<&str> = lines[1].split_whitespace().collect();
    first.sort();
    assert_eq!(first, vec!["2", "3"]);
    assert_eq!(lines[2], "1 ");
    assert_eq!(lines[3], "1 ");
    assert_eq!(lines[4], "");
    assert_eq!(lines.len(), 5);
}

#[test]
fn edge_lines_split_on_unicode_spaces_too() {
    // no-break space, em space and ideographic space between the numbers
    let text = "header\n1\u{a0}2\n3\u{2003}4 junk\n5\u{3000}\u{85}6\n7\u{a0}x\n";
    assert_eq!(read_edge_list_text(text.as_bytes()), vec![(1, 2), (3, 4), (5, 6)]);
    let expected: Vec<(usize, usize)> = text
        .lines()
        .skip(1)
        .filter_map(|line| {
            let mut nums = line.split_whitespace();
            Some((nums.next()?.parse().ok()?, nums.next()?.parse().ok()?))
        })
        .collect();
    assert_eq!(read_edge_list_text(text.as_bytes()), expected);
    // a byte that only looks like the start of a space stays in the token
    assert_eq!(read_edge_list_text("h\n1\u{a9} 2\n".as_bytes()), Vec::<(usize, usize)>::new());
}
