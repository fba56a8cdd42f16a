use pic2bombhopper::level::{Bombs, Entity, Level, Point};
use pic2bombhopper::optimize::prune_aligned_vertices;
use pic2bombhopper::raster::{approx, get_polygons, segment_image, Image, Pixel};

fn px(r: u8, g: u8, b: u8, a: u8) -> Pixel {
    Pixel { r, g, b, a }
}

fn image_of(width: u32, height: u32, pixels: Vec<Pixel>) -> Image {
    Image::new(width, height, pixels).unwrap()
}

fn level_of(polygons: Vec<(Vec<Point>, Pixel)>) -> Level {
    let mut level = Level::new(String::from("test"), [0, 0]);
    pic2bombhopper::level::add_paint_entities(&mut level, polygons);
    level
}

fn paint(entity: &Entity) -> (i32, u8, &Vec<Point>) {
    match entity {
        Entity::Paint { fill_color, alpha, vertices } => (*fill_color, *alpha, vertices),
        _ => panic!("expected a paint entity"),
    }
}

#[test]
fn single_opaque_pixel() {
    let img = image_of(1, 1, vec![px(10, 20, 30, 255)]);
    let polys = get_polygons(&img, 0, 0);
    let level = level_of(polys);
    assert_eq!(level.entities.len(), 1);
    let (fill, alpha, vertices) = paint(&level.entities[0]);
    assert_eq!(fill, 660510);
    assert_eq!(alpha, 255);
    assert!(!vertices.is_empty());
    assert_eq!(vertices[0], Point::new(0, 0));
}

#[test]
fn transparent_pixel_dropped() {
    let img = image_of(1, 1, vec![px(10, 20, 30, 0)]);
    let polys = get_polygons(&img, 0, 0);
    let level = level_of(polys);
    assert_eq!(level.entities.len(), 0);
}

#[test]
fn lower_cut_culls_isolated_pixel() {
    let blue = px(0, 0, 255, 255);
    let red = px(255, 0, 0, 255);
    let mut pixels = vec![blue; 100];
    pixels[5 * 10 + 5] = red;
    let img = image_of(10, 10, pixels);
    let polys = get_polygons(&img, 0, 1);
    let level = level_of(polys);
    assert_eq!(level.entities.len(), 1);
    let (fill, alpha, _) = paint(&level.entities[0]);
    assert_eq!(fill, 255);
    assert_eq!(alpha, 255);
}

#[test]
fn uniform_fill_collapses_to_rectangle() {
    let img = image_of(8, 8, vec![px(200, 100, 50, 255); 64]);
    let polys = get_polygons(&img, 0, 0);
    let mut level = level_of(polys);
    prune_aligned_vertices(&mut level);
    assert_eq!(level.entities.len(), 1);
    let (fill, alpha, vertices) = paint(&level.entities[0]);
    assert_eq!(fill, 13132850);
    assert_eq!(alpha, 255);
    assert_eq!(vertices.len(), 4);
    assert!(vertices.contains(&Point::new(0, 0)));
    assert!(vertices.contains(&Point::new(7, 0)));
    assert!(vertices.contains(&Point::new(7, 7)));
    assert!(vertices.contains(&Point::new(0, 7)));
}

#[test]
fn variance_merges_near_equal_colors() {
    let left = px(100, 100, 100, 255);
    let right = px(105, 100, 100, 255);
    let mut pixels = Vec::new();
    for _y in 0..4 {
        for x in 0..4 {
            pixels.push(if x < 2 { left } else { right });
        }
    }
    let merged = get_polygons(&image_of(4, 4, pixels.clone()), 5, 0);
    assert_eq!(level_of(merged).entities.len(), 1);
    let split = get_polygons(&image_of(4, 4, pixels), 4, 0);
    assert_eq!(level_of(split).entities.len(), 2);
}

#[test]
fn every_pixel_lands_in_exactly_one_region() {
    let pixels = vec![
        px(0, 0, 0, 255),
        px(50, 0, 0, 255),
        px(100, 0, 0, 255),
        px(150, 0, 0, 255),
    ];
    let regions = segment_image(&image_of(2, 2, pixels), 0);
    assert_eq!(regions.len(), 4);
    let total: u32 = regions.iter().map(|r| r.count).sum();
    assert_eq!(total, 4);
}

#[test]
fn full_variance_gives_a_single_region() {
    let pixels = vec![
        px(0, 0, 0, 255),
        px(255, 255, 255, 0),
        px(9, 90, 200, 13),
        px(255, 0, 255, 255),
        px(1, 2, 3, 4),
        px(200, 100, 0, 77),
    ];
    let regions = segment_image(&image_of(2, 3, pixels), 255);
    assert_eq!(regions.len(), 1);
    assert_eq!(regions[0].count, 6);
}

#[test]
fn averaging_keeps_channels_in_byte_range() {
    let img = image_of(2, 2, vec![px(9, 9, 9, 9); 4]);
    let regions = segment_image(&img, 0);
    assert_eq!(regions.len(), 1);
    let avg = pic2bombhopper::raster::average_color(&regions[0]);
    assert_eq!(avg, px(9, 9, 9, 9));
}

#[test]
fn averaging_counts_the_seed_twice() {
    // one region of two pixels: sums are seed + both members, divided by 3
    let img = image_of(2, 1, vec![px(10, 0, 0, 255), px(10, 3, 0, 255)]);
    let regions = segment_image(&img, 3);
    assert_eq!(regions.len(), 1);
    assert_eq!(regions[0].count, 2);
    assert_eq!(regions[0].sum_r, 30);
    assert_eq!(regions[0].sum_g, 3);
    let avg = pic2bombhopper::raster::average_color(&regions[0]);
    assert_eq!(avg, px(10, 1, 0, 255));
}

#[test]
fn similarity_is_channel_wise() {
    assert!(approx(px(10, 10, 10, 10), px(15, 5, 10, 10), 5));
    assert!(!approx(px(10, 10, 10, 10), px(16, 10, 10, 10), 5));
    assert!(!approx(px(10, 10, 10, 10), px(10, 10, 10, 16), 5));
    assert!(approx(px(0, 0, 0, 0), px(255, 255, 255, 255), 255));
}

fn paint_level(vertices: Vec<Point>) -> Level {
    let mut level = Level::new(String::from("poly"), [0, 0]);
    level.push(Entity::Paint { fill_color: 7, alpha: 255, vertices });
    level
}

fn vertices_of(level: &Level) -> Vec<Point> {
    let (_, _, vs) = paint(&level.entities[0]);
    vs.clone()
}

#[test]
fn pruner_removes_collinear_runs() {
    let mut level = paint_level(vec![
        Point::new(0, 0),
        Point::new(1, 0),
        Point::new(2, 0),
        Point::new(2, 1),
        Point::new(2, 2),
        Point::new(0, 2),
    ]);
    prune_aligned_vertices(&mut level);
    assert_eq!(
        vertices_of(&level),
        vec![Point::new(0, 0), Point::new(2, 0), Point::new(2, 2), Point::new(0, 2)]
    );
}

#[test]
fn pruner_is_idempotent_on_distinct_vertices() {
    let mut level = paint_level(vec![
        Point::new(0, 0),
        Point::new(3, 0),
        Point::new(5, 0),
        Point::new(5, 4),
        Point::new(2, 4),
        Point::new(0, 4),
        Point::new(0, 2),
    ]);
    prune_aligned_vertices(&mut level);
    let once = vertices_of(&level);
    prune_aligned_vertices(&mut level);
    assert_eq!(vertices_of(&level), once);
}

#[test]
fn pruner_never_drops_below_two_vertices() {
    let mut level = paint_level(vec![Point::new(0, 0), Point::new(1, 1), Point::new(2, 2)]);
    prune_aligned_vertices(&mut level);
    assert_eq!(vertices_of(&level), vec![Point::new(0, 0), Point::new(2, 2)]);
}

#[test]
fn pruner_leaves_small_polygons_alone() {
    let two = vec![Point::new(0, 0), Point::new(5, 5)];
    let mut level = paint_level(two.clone());
    prune_aligned_vertices(&mut level);
    assert_eq!(vertices_of(&level), two);
}

#[test]
fn scaling_commutes_with_pruning() {
    let poly = vec![Point::new(0, 0), Point::new(1, 0), Point::new(2, 0), Point::new(0, 1)];
    let scaled: Vec<Point> = poly.iter().map(|p| Point::new(p.x * 3, p.y * 3)).collect();

    let mut level = paint_level(poly);
    prune_aligned_vertices(&mut level);
    let pruned_then_scaled: Vec<Point> =
        vertices_of(&level).iter().map(|p| Point::new(p.x * 3, p.y * 3)).collect();

    let mut level2 = paint_level(scaled);
    prune_aligned_vertices(&mut level2);
    assert_eq!(vertices_of(&level2), pruned_then_scaled);
}

#[test]
fn packed_color_formula() {
    let polys = vec![(vec![Point::new(0, 0)], px(1, 2, 3, 4))];
    let level = level_of(polys);
    let (fill, alpha, _) = paint(&level.entities[0]);
    assert_eq!(fill, 1 * 65536 + 2 * 256 + 3);
    assert_eq!(alpha, 4);
}

#[test]
fn level_records_entities_in_order() {
    let mut level = Level::new(String::from("a level"), [3, 4]);
    assert_eq!(level.name, "a level");
    assert_eq!(level.timings, [3, 4]);
    assert_eq!(level.format_version, 0);
    level.push(Entity::Player {
        is_static: false,
        angle: 0,
        x: 1,
        y: 2,
        magazine: vec![Bombs::Empty, Bombs::Bomb, Bombs::Grenade],
    });
    level.push(Entity::Paint { fill_color: 9, alpha: 1, vertices: vec![Point::new(4, 5)] });
    assert_eq!(level.entities.len(), 2);
    let (fill, alpha, vs) = paint(&level.entities[1]);
    assert_eq!((fill, alpha), (9, 1));
    assert_eq!(vs.len(), 1);
}

#[test]
fn rejects_mismatched_pixel_buffer() {
    assert!(Image::new(2, 2, vec![px(0, 0, 0, 0); 3]).is_none());
    assert!(Image::new(0, 5, Vec::new()).is_some());
}

