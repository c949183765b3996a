use tinyrender::obj::Face;
use tinyrender::renderer;
use tinyrender::renderer::{barycentric, cross_product, depth_buffer, polygon, triangle, Vertex, DEPTH_FAR, TEX_ONE};
use tinyrender::tga::{rgba, TgaImage};

fn lit(img: &TgaImage) -> Vec<(u16, u16)> {
    let mut out = Vec::new();
    for y in 0..img.height {
        for x in 0..img.width {
            if img.get(x, y).bgra != [0, 0, 0, 0] {
                out.push((x, y));
            }
        }
    }
    out
}

fn white_texture() -> TgaImage {
    let mut t = TgaImage::new(1, 1, 3);
    t.set(0, 0, rgba(255, 255, 255, 255)).unwrap();
    t
}

fn vx(x: u16, y: u16, z: u32) -> Vertex {
    Vertex { x, y, z, u: 0, v: 0 }
}

#[test]
fn cross_product_values() {
    assert_eq!(cross_product(1, 0, 0, 0, 1, 0), (0, 0, 1));
    assert_eq!(cross_product(2, 3, 4, 5, 6, 7), (-3, 6, -3));
    let m = i32::MAX;
    let n = -i32::MAX;
    let big = (m as i64) * (m as i64);
    // the largest difference: (2^31 - 1)^2 twice
    assert_eq!(cross_product(m, n, 0, m, m, 0), (0, 0, 2 * big));
    assert_eq!(cross_product(0, m, 0, 0, 0, n), (m as i64 * n as i64, 0, 0));
}

#[test]
fn line_horizontal_excludes_far_end() {
    let mut img = TgaImage::new(10, 10, 3);
    renderer::line(1, 2, 5, 2, &mut img, &rgba(255, 0, 0, 255));
    assert_eq!(lit(&img), vec![(1, 2), (2, 2), (3, 2), (4, 2)]);
    assert_eq!(img.get(1, 2).bgra, [0, 0, 255, 0]);
}

#[test]
fn line_steep_and_diagonal() {
    let mut img = TgaImage::new(10, 10, 1);
    renderer::line(2, 1, 3, 5, &mut img, &rgba(9, 9, 9, 9));
    assert_eq!(lit(&img), vec![(2, 1), (2, 2), (2, 3), (3, 4)]);
    let mut d = TgaImage::new(10, 10, 1);
    renderer::line(0, 0, 4, 4, &mut d, &rgba(9, 9, 9, 9));
    assert_eq!(lit(&d), vec![(0, 0), (1, 1), (2, 2), (3, 3)]);
}

#[test]
fn line_is_symmetric() {
    let ends = [(0u16, 0u16, 9u16, 3u16), (7, 1, 2, 8), (5, 5, 5, 9), (1, 8, 8, 1), (3, 3, 3, 3), (0, 9, 9, 0)];
    for (x0, y0, x1, y1) in ends {
        let mut a = TgaImage::new(10, 10, 3);
        let mut b = TgaImage::new(10, 10, 3);
        renderer::line(x0, y0, x1, y1, &mut a, &rgba(1, 2, 3, 4));
        renderer::line(x1, y1, x0, y0, &mut b, &rgba(1, 2, 3, 4));
        assert_eq!(lit(&a), lit(&b));
    }
}

#[test]
fn line_outside_image_is_clipped() {
    let mut img = TgaImage::new(4, 4, 3);
    renderer::line(2, 2, 9, 2, &mut img, &rgba(1, 1, 1, 1));
    assert_eq!(lit(&img), vec![(2, 2), (3, 2)]);
}

#[test]
fn polygon_closes_the_outline() {
    let mut img = TgaImage::new(10, 10, 1);
    polygon(&vec![1, 5, 5, 1], &vec![1, 1, 5, 5], &mut img, &rgba(7, 7, 7, 7));
    let px = lit(&img);
    // each edge leaves out its far end once its ends are ordered
    assert_eq!(px.len(), 15);
    assert!(!px.contains(&(5, 5)));
    for p in [(1, 1), (4, 1), (5, 1), (5, 4), (4, 5), (2, 5), (1, 5), (1, 2)] {
        assert!(px.contains(&p), "{:?}", p);
    }
}

#[test]
fn barycentric_weights() {
    let (a, b, c) = (vx(0, 0, 0), vx(10, 0, 0), vx(0, 10, 0));
    assert_eq!(barycentric(&a, &b, &c, 2, 3), Some((20, 30, 100)));
    assert_eq!(barycentric(&a, &b, &c, 6, 6), None);
    assert_eq!(barycentric(&a, &c, &b, 2, 3), Some((30, 20, 100)));
}

#[test]
fn depth_buffer_starts_far() {
    let img = TgaImage::new(3, 2, 3);
    let zb = depth_buffer(&img);
    assert_eq!(zb.len(), 6);
    assert!(zb.iter().all(|z| *z == DEPTH_FAR));
}

#[test]
fn triangle_coverage() {
    let mut img = TgaImage::new(20, 20, 3);
    let mut zb = depth_buffer(&img);
    let (a, b, c) = (vx(0, 0, 1), vx(10, 0, 1), vx(0, 10, 1));
    triangle(&mut img, &mut zb, &a, &b, &c, &white_texture(), &rgba(200, 100, 50, 255));
    let mut expected = Vec::new();
    for y in 0..=10u16 {
        for x in 0..=10u16 {
            if x + y <= 10 {
                expected.push((x, y));
            }
        }
    }
    assert_eq!(expected.len(), 66);
    assert_eq!(lit(&img), expected);
    assert_eq!(img.get(0, 0).bgra, [50, 100, 200, 0]);
    for y in 0..20usize {
        for x in 0..20usize {
            let drawn = x + y <= 10;
            assert_eq!(zb[x + y * 20] == 1, drawn);
            assert_eq!(zb[x + y * 20] == DEPTH_FAR, !drawn);
        }
    }
}

#[test]
fn degenerate_triangle_draws_nothing() {
    let mut img = TgaImage::new(20, 20, 3);
    let mut zb = depth_buffer(&img);
    let (a, b, c) = (vx(0, 0, 5), vx(5, 5, 5), vx(10, 10, 5));
    triangle(&mut img, &mut zb, &a, &b, &c, &white_texture(), &rgba(255, 255, 255, 255));
    assert!(lit(&img).is_empty());
    assert!(zb.iter().all(|z| *z == DEPTH_FAR));
    let (a, b, c) = (vx(3, 4, 5), vx(3, 4, 5), vx(3, 4, 5));
    triangle(&mut img, &mut zb, &a, &b, &c, &white_texture(), &rgba(255, 255, 255, 255));
    assert!(lit(&img).is_empty());
}

#[test]
fn nearer_triangle_wins_in_either_order() {
    let near = (vx(0, 0, 200), vx(12, 0, 200), vx(0, 12, 200));
    let far = (vx(2, 2, 100), vx(16, 2, 100), vx(2, 16, 100));
    let red = rgba(255, 0, 0, 255);
    let blue = rgba(0, 0, 255, 255);
    let tex = white_texture();
    let mut results = Vec::new();
    for near_first in [true, false] {
        let mut img = TgaImage::new(20, 20, 3);
        let mut zb = depth_buffer(&img);
        if near_first {
            triangle(&mut img, &mut zb, &near.0, &near.1, &near.2, &tex, &red);
            triangle(&mut img, &mut zb, &far.0, &far.1, &far.2, &tex, &blue);
        } else {
            triangle(&mut img, &mut zb, &far.0, &far.1, &far.2, &tex, &blue);
            triangle(&mut img, &mut zb, &near.0, &near.1, &near.2, &tex, &red);
        }
        assert_eq!(img.get(4, 4).bgra, [0, 0, 255, 0]);
        assert_eq!(img.get(12, 4).bgra, [255, 0, 0, 0]);
        results.push(img.encode(false));
    }
    assert_eq!(results[0], results[1]);
}

#[test]
fn triangle_samples_texture() {
    let mut tex = TgaImage::new(2, 2, 3);
    tex.set(0, 0, rgba(1, 1, 1, 0)).unwrap();
    tex.set(1, 0, rgba(2, 2, 2, 0)).unwrap();
    tex.set(0, 1, rgba(3, 3, 3, 0)).unwrap();
    tex.set(1, 1, rgba(4, 4, 4, 0)).unwrap();
    let t = TEX_ONE as u32;
    let a = Vertex { x: 0, y: 0, z: 1, u: t - 1, v: t - 1 };
    let b = Vertex { x: 4, y: 0, z: 1, u: t - 1, v: t - 1 };
    let c = Vertex { x: 0, y: 4, z: 1, u: t - 1, v: t - 1 };
    let mut img = TgaImage::new(4, 4, 3);
    let mut zb = depth_buffer(&img);
    triangle(&mut img, &mut zb, &a, &b, &c, &tex, &rgba(255, 255, 255, 255));
    // u and v near 1 pick the right column of the top row
    assert_eq!(img.get(0, 0).bgra, [2, 2, 2, 0]);
}

#[test]
fn cube_face_render_is_deterministic() {
    let render = || {
        let mut img = TgaImage::new(800, 800, 3);
        let mut zb = depth_buffer(&img);
        let tex = white_texture();
        let gray = rgba(180, 180, 180, 255);
        let p = [vx(200, 200, 1000), vx(600, 200, 1000), vx(600, 600, 1000), vx(200, 600, 1000)];
        triangle(&mut img, &mut zb, &p[0], &p[1], &p[2], &tex, &gray);
        triangle(&mut img, &mut zb, &p[0], &p[2], &p[3], &tex, &gray);
        img.flip_vertically();
        img.encode(false)
    };
    let first = render();
    let second = render();
    assert_eq!(first, second);
    let img = TgaImage::decode(&first).unwrap();
    assert_eq!(img.get(400, 400).bgra, [180, 180, 180, 0]);
    assert_eq!(img.get(100, 100).bgra, [0, 0, 0, 0]);
}

#[test]
fn face_index_check() {
    let f = Face { vertex_indices: vec![0, 1, 2], tex_indices: vec![2, 1, 0] };
    assert!(f.is_valid(3, 3));
    assert!(!f.is_valid(2, 3));
    assert!(!f.is_valid(3, 2));
    let g = Face { vertex_indices: vec![0, 1], tex_indices: vec![0] };
    assert!(!g.is_valid(5, 5));
}
