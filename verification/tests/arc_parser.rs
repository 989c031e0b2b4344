use goldworm::arc_parser::{extract_components, ColorStats, ObjectGraph};
use goldworm::grid::ArcGrid;

#[test]
fn test_extract_components_simple() {
    let grid = ArcGrid::from_data(vec![
        vec![1, 1, 0],
        vec![0, 1, 0],
        vec![0, 0, 2],
    ]).unwrap();
    let components = extract_components(&grid);
    assert_eq!(components.len(), 2);
    assert_eq!(components[0].color, 1);
    assert_eq!(components[0].size(), 3);
    assert_eq!(components[1].color, 2);
    assert_eq!(components[1].size(), 1);
}

#[test]
fn test_extract_components_empty() {
    let grid = ArcGrid::from_data(vec![
        vec![0, 0],
        vec![0, 0],
    ]).unwrap();
    let components = extract_components(&grid);
    assert!(components.is_empty());
}

#[test]
fn test_component_bbox() {
    let grid = ArcGrid::from_data(vec![
        vec![1, 0, 0],
        vec![0, 1, 0],
        vec![0, 0, 1],
    ]).unwrap();
    let components = extract_components(&grid);
    assert_eq!(components.len(), 3);
    assert_eq!(components[0].bbox, (0, 0, 0, 0));
    assert_eq!(components[0].width(), 1);
    assert_eq!(components[0].height(), 1);
}

#[test]
fn test_component_touches_border() {
    let grid = ArcGrid::from_data(vec![
        vec![1, 0, 0],
        vec![0, 0, 0],
        vec![0, 0, 1],
    ]).unwrap();
    let components = extract_components(&grid);
    assert!(components[0].touches_border(3, 3));
    assert!(components[1].touches_border(3, 3));
}

#[test]
fn test_color_stats() {
    let grid = ArcGrid::from_data(vec![
        vec![1, 1, 2],
        vec![0, 1, 0],
    ]).unwrap();
    let stats = ColorStats::compute(&grid);
    assert_eq!(stats.count(0), 2);
    assert_eq!(stats.count(1), 3);
    assert_eq!(stats.count(2), 1);
    assert_eq!(stats.total_non_bg, 4);
    assert_eq!(stats.dominant_color, 1);
}

#[test]
fn test_object_graph_parse() {
    let grid = ArcGrid::from_data(vec![
        vec![1, 1, 0],
        vec![0, 1, 0],
        vec![0, 0, 2],
    ]).unwrap();
    let graph = ObjectGraph::parse(&grid);
    assert_eq!(graph.width, 3);
    assert_eq!(graph.height, 3);
    assert_eq!(graph.component_count(), 2);
    assert_eq!(graph.background, 0);
    assert!(!graph.is_empty());
    assert!(!graph.is_single_component());
}

#[test]
fn components_cover_every_colored_pixel_once() {
    let grid = ArcGrid::from_data(vec![
        vec![3, 3, 0, 4],
        vec![0, 3, 0, 4],
        vec![5, 0, 0, 0],
    ]).unwrap();
    let components = extract_components(&grid);
    assert_eq!(components.len(), 3);
    let total: usize = components.iter().map(|c| c.size()).sum();
    assert_eq!(total, 6);
    // largest first; equal sizes keep the row-major order of their first pixel
    assert_eq!(components[0].color, 3);
    assert_eq!(components[0].pixels, vec![(0, 0), (0, 1), (1, 1)]);
    assert_eq!(components[0].bbox, (0, 1, 0, 1));
    assert_eq!(components[1].color, 4);
    assert_eq!(components[1].bbox, (0, 1, 3, 3));
    assert_eq!(components[2].color, 5);
    assert!(components[0].touches_border(4, 3));
    assert_eq!(components[1].width(), 1);
    assert_eq!(components[1].height(), 2);
}

#[test]
fn same_color_blocks_apart_are_separate_components() {
    let grid = ArcGrid::from_data(vec![vec![2, 0, 2]]).unwrap();
    let graph = ObjectGraph::parse(&grid);
    assert_eq!(graph.component_count(), 2);
    assert_eq!(graph.largest_component().unwrap().pixels, vec![(0, 0)]);
    let single = ObjectGraph::parse(&ArcGrid::from_data(vec![vec![2, 2]]).unwrap());
    assert!(single.is_single_component());
    let empty = ObjectGraph::parse(&ArcGrid::from_data(vec![vec![0, 0]]).unwrap());
    assert!(empty.is_empty());
    assert!(empty.largest_component().is_none());
}

#[test]
fn dominant_color_prefers_the_larger_color_on_a_tie() {
    let grid = ArcGrid::from_data(vec![vec![1, 2, 0]]).unwrap();
    let stats = ColorStats::compute(&grid);
    assert_eq!(stats.total_non_bg, 2);
    assert_eq!(stats.dominant_color, 2);
    let blank = ColorStats::compute(&ArcGrid::from_data(vec![vec![0, 0]]).unwrap());
    assert_eq!(blank.total_non_bg, 0);
    assert_eq!(blank.dominant_color, 9);
}

#[test]
fn empty_exactly_when_no_components() {
    for rows in [vec![vec![0, 0], vec![0, 0]], vec![vec![0, 3], vec![0, 0]], vec![vec![9]]] {
        let graph = ObjectGraph::parse(&ArcGrid::from_data(rows).unwrap());
        assert_eq!(graph.is_empty(), graph.component_count() == 0);
    }
}

#[test]
fn component_pixels_follow_depth_first_order() {
    let grid = ArcGrid::from_data(vec![
        vec![1, 1],
        vec![1, 1],
    ]).unwrap();
    let components = extract_components(&grid);
    assert_eq!(components.len(), 1);
    assert_eq!(components[0].pixels, vec![(0, 0), (0, 1), (1, 1), (1, 0)]);

    let grid = ArcGrid::from_data(vec![
        vec![0, 3, 0],
        vec![3, 3, 3],
        vec![0, 3, 0],
    ]).unwrap();
    let components = extract_components(&grid);
    assert_eq!(components[0].pixels, vec![(0, 1), (1, 1), (1, 2), (1, 0), (2, 1)]);
}

#[test]
fn single_component_exactly_when_one_region() {
    let one = ArcGrid::from_data(vec![
        vec![4, 4, 0],
        vec![0, 4, 4],
    ]).unwrap();
    assert!(ObjectGraph::parse(&one).is_single_component());
    let two_colors = ArcGrid::from_data(vec![
        vec![4, 5, 0],
        vec![0, 0, 0],
    ]).unwrap();
    assert!(!ObjectGraph::parse(&two_colors).is_single_component());
    let apart = ArcGrid::from_data(vec![
        vec![4, 0, 4],
    ]).unwrap();
    assert_eq!(ObjectGraph::parse(&apart).component_count(), 2);
}

#[test]
fn component_fits_its_box() {
    let grid = ArcGrid::from_data(vec![
        vec![0, 6, 0],
        vec![6, 6, 0],
        vec![0, 6, 6],
    ]).unwrap();
    let components = extract_components(&grid);
    assert_eq!(components.len(), 1);
    let c = &components[0];
    assert_eq!((c.height(), c.width()), (3, 3));
    assert_eq!(c.size(), 5);
    assert!(c.size() <= c.width() * c.height());
}

#[test]
fn parsed_components_are_the_extracted_ones() {
    let grid = ArcGrid::from_data(vec![
        vec![1, 1, 0, 2],
        vec![0, 1, 0, 2],
        vec![3, 0, 0, 2],
    ]).unwrap();
    let graph = ObjectGraph::parse(&grid);
    assert_eq!(graph.components, extract_components(&grid));
    assert_eq!(graph.components[0].pixels, vec![(0, 0), (0, 1), (1, 1)]);
    assert_eq!(graph.components[1].pixels, vec![(0, 3), (1, 3), (2, 3)]);
}
