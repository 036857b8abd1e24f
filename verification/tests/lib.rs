use quadtree_cd::level::{bsr, level_base_u16};
use quadtree_cd::{intersects, BoundingBox, Intersection, Tree};
use std::f32::consts::PI;

const FUZZ_COUNT: usize = 100000;

/// An oriented rectangle: center, width, height, rotation in radians.
#[derive(Clone, Copy, Debug)]
struct RR {
    x: f32,
    y: f32,
    w: f32,
    h: f32,
    a: f32,
}

const RR1: RR = RR { x: 0.5, y: 0.5, w: 0.5, h: 0.5, a: PI / 4.0 };

const RR2: RR = RR { x: 0.85, y: 0.85, w: 0.15, h: 0.15, a: PI / 8.0 };

const RR3: RR = RR { x: 0.85, y: 0.85, w: 0.25, h: 0.25, a: PI / 8.0 };

/// Axis-aligned bounds of an oriented rectangle.
fn aabb(r: &RR) -> BoundingBox<f32> {
    let c = r.a.cos().abs();
    let s = r.a.sin().abs();
    let ex = r.w / 2.0;
    let ey = r.h / 2.0;
    let xr = ex * c + ey * s;
    let yr = ex * s + ey * c;
    BoundingBox::new(r.x - xr, r.y - yr, r.x + xr, r.y + yr)
}

/// World bounds to the 8-bit grid: clamp to the world, scale to
/// [0, 256), floor the lower corner, ceil the upper, clamp to [0, 255].
fn grid(bb: &BoundingBox<f32>, width: f32, height: f32) -> BoundingBox<u8> {
    let inv_w = 256.0 / width;
    let inv_h = 256.0 / height;
    BoundingBox::new(
        (bb.x0.max(0.0) * inv_w).floor().clamp(0.0, 255.0) as u8,
        (bb.y0.max(0.0) * inv_h).floor().clamp(0.0, 255.0) as u8,
        (bb.x1.min(width) * inv_w).ceil().clamp(0.0, 255.0) as u8,
        (bb.y1.min(height) * inv_h).ceil().clamp(0.0, 255.0) as u8,
    )
}

/// Rotated-rectangle collision detection (separating-axis test).
fn rr_intersects(rr1: &RR, rr2: &RR) -> bool {
    let ang = rr1.a - rr2.a;
    let cosa = ang.cos();
    let sina = ang.sin();

    // Translate so rr1 is at the origin, rotate so rr2 is axis-aligned.
    let c2 = rr2.a.cos();
    let s2 = rr2.a.sin();
    let tx = rr2.x - rr1.x;
    let ty = rr2.y - rr1.y;
    let cx = tx * c2 + ty * s2;
    let cy = -tx * s2 + ty * c2;

    let blx = cx - rr2.w / 2.0;
    let bly = cy - rr2.h / 2.0;
    let trx = cx + rr2.w / 2.0;
    let tr_y = cy + rr2.h / 2.0;

    // Two extremal corners of the rotated rr1.
    let cost = rr1.w / 2.0 * cosa;
    let sint = rr1.w / 2.0 * sina;
    let ax0 = -rr1.h / 2.0 * sina;
    let ay0 = rr1.h / 2.0 * cosa;
    let (mut ax, mut ay) = (ax0 + cost, ay0 + sint);
    let (mut bx, mut by) = (ax0 - cost, ay0 - sint);

    let t = sina * cosa;
    if t < 0.0 {
        std::mem::swap(&mut ax, &mut bx);
        std::mem::swap(&mut ay, &mut by);
    }
    if sina < 0.0 {
        bx = -bx;
        by = -by;
    }

    if bx > trx || bx > -blx {
        return false;
    }

    let mut ext1 = ay;
    let mut ext2 = -ay;

    if t != 0.0 {
        {
            let mut dx1 = blx - ax;
            let dx2 = trx - ax;
            if dx1 * dx2 > 0.0 {
                let mut dx = ax;
                if dx1 < 0.0 {
                    dx -= bx;
                    ext1 -= by;
                    dx1 = dx2;
                } else {
                    dx += bx;
                    ext1 += by;
                }
                ext1 *= dx1;
                ext1 /= dx;
                ext1 += ay;
            }
        }
        {
            let mut dx1 = blx + ax;
            let dx2 = trx + ax;
            if dx1 * dx2 > 0.0 {
                let mut dx = -ax;
                if dx1 < 0.0 {
                    dx -= bx;
                    ext2 -= by;
                    dx1 = dx2;
                } else {
                    dx += bx;
                    ext2 += by;
                }
                ext2 *= dx1;
                ext2 /= dx;
                ext2 -= ay;
            }
        }
    }

    let (e1, e2) = if ext1 > ext2 { (ext2, ext1) } else { (ext1, ext2) };
    !((e1 < bly && e2 < bly) || (e1 > tr_y && e2 > tr_y))
}

impl Intersection for RR {
    fn conflicts(self, other: Self) -> bool {
        rr_intersects(&self, &other)
    }

    fn intersects(&self, other: &Self) -> bool {
        rr_intersects(self, other)
    }
}

fn insert_world(tree: &mut Tree<RR>, item: RR, bb: &BoundingBox<f32>, w: f32, h: f32) {
    let gb = grid(bb, w, h);
    tree.insert(item, &gb);
}

fn insert_unless(tree: &mut Tree<RR>, item: RR, bb: &BoundingBox<f32>, w: f32, h: f32) -> bool {
    let gb = grid(bb, w, h);
    tree.insert_unless_intersecting(item, &gb)
}

#[test]
fn test_insert() {
    let mut tree: Tree<RR> = Tree::new();
    insert_world(&mut tree, RR1, &aabb(&RR1), 1.0, 1.0);
    insert_world(&mut tree, RR1, &aabb(&RR2), 1.0, 1.0);
    insert_world(&mut tree, RR1, &aabb(&RR3), 1.0, 1.0);
}

#[test]
fn test_insert_unless_intersecting() {
    let mut tree: Tree<RR> = Tree::new();
    assert!(insert_unless(&mut tree, RR1, &aabb(&RR1), 1.0, 1.0));
    assert!(insert_unless(&mut tree, RR2, &aabb(&RR2), 1.0, 1.0));
    assert!(!insert_unless(&mut tree, RR3, &aabb(&RR3), 1.0, 1.0));
}

#[test]
fn test_insert_twice() {
    let mut tree: Tree<RR> = Tree::new();
    let rr = RR { x: 0.5, y: 0.5, w: 0.5, h: 0.5, a: PI / 4.0 };
    let bbox: BoundingBox<f32> = aabb(&rr);
    assert_eq!(insert_unless(&mut tree, RR1.clone(), &bbox, 1.0, 1.0), true);
    assert_eq!(insert_unless(&mut tree, RR1.clone(), &bbox, 1.0, 1.0), false);
}

#[test]
fn test_insert_grid() {
    let size: f32 = 128.0;

    for depth in 1..7 {
        let mut tree: Tree<RR> = Tree::new();
        let count = 2u16.pow(depth - 1);
        let u: f32 = size / count as f32;

        for i in 0..count {
            for j in 0..count {
                let r = RR {
                    x: i as f32 * u + u / 2.0,
                    y: j as f32 * u + u / 2.0,
                    w: u / 2.0f32.sqrt() * 0.99,
                    h: u / 2.0f32.sqrt() * 0.99,
                    a: PI / 4.0,
                };
                let bbox: BoundingBox<f32> = aabb(&r);
                let inserted = insert_unless(&mut tree, r.clone(), &bbox, size, size);
                assert!(inserted);
            }
        }
    }
}

/// A small deterministic generator for the fuzz test.
struct Lcg(u64);

impl Lcg {
    fn next_u32(&mut self) -> u32 {
        self.0 = self
            .0
            .wrapping_mul(6364136223846793005)
            .wrapping_add(1442695040888963407);
        (self.0 >> 32) as u32
    }

    fn next_f32(&mut self) -> f32 {
        (self.next_u32() >> 8) as f32 / (1u32 << 24) as f32
    }
}

#[test]
fn test_fuzz_intersect() {
    for i in 0..FUZZ_COUNT {
        // Generator seeded with the iteration.
        let mut rng = Lcg((i as u64).wrapping_mul(0x9e3779b97f4a7c15).wrapping_add(1));

        let mut tree: Tree<RR> = Tree::new();
        let mut rs: Vec<RR> = Vec::new();

        loop {
            let x = rng.next_f32();
            let y = rng.next_f32();
            let w = rng.next_f32();
            let h = rng.next_f32();

            let r = RR { x, y, w, h, a: 2.0 * PI * rng.next_f32() };

            let b: BoundingBox<f32> = aabb(&r);

            if b.x0 < 0.0 || b.x1 > 1.0 || b.y0 < 0.0 || b.y1 > 1.0 {
                continue;
            }

            let hit = rs.iter().any(|other| intersects(&r, other));
            let inserted = insert_unless(&mut tree, r.clone(), &b, 1.0, 1.0);

            assert_eq!(inserted, !hit);

            if hit {
                break;
            } else {
                rs.push(r);
            }
        }
    }
}

#[test]
fn test_insert_checked_predicate() {
    let mut tree: Tree<u32> = Tree::new();
    let bb = BoundingBox::<u8>::new(10, 10, 20, 20);
    let always = |_a: &u32, _b: &u32| true;
    // Nothing stored yet, so nothing can conflict.
    assert!(tree.insert_checked(5, &bb, Some(&always)));
    // Now the stored item conflicts with anything.
    assert!(!tree.insert_checked(6, &bb, Some(&always)));
    // A predicate that never objects lets everything in.
    let never = |_a: &u32, _b: &u32| false;
    assert!(tree.insert_checked(7, &bb, Some(&never)));
    // No predicate at all: insertion always happens.
    assert!(tree.insert_checked(8, &bb, None::<&fn(&u32, &u32) -> bool>));
}

#[test]
fn test_bounding_box_new() {
    let bb = BoundingBox::<u8>::new(3, 4, 5, 6);
    assert_eq!(bb.x0, 3);
    assert_eq!(bb.y0, 4);
    assert_eq!(bb.x1, 5);
    assert_eq!(bb.y1, 6);
}

#[test]
fn test_bit_scan_and_level_offsets() {
    assert_eq!(bsr(1), 0);
    assert_eq!(bsr(2), 1);
    assert_eq!(bsr(3), 1);
    assert_eq!(bsr(4), 2);
    assert_eq!(bsr(127), 6);
    assert_eq!(bsr(128), 7);
    assert_eq!(bsr(255), 7);
    let expected: [u16; 9] = [0, 1, 5, 21, 85, 341, 1365, 5461, 21845];
    for l in 0..9u8 {
        assert_eq!(level_base_u16(l), expected[l as usize]);
    }
}

#[test]
fn test_aabb_encloses_corners() {
    let r = RR { x: 0.3, y: 0.6, w: 0.4, h: 0.2, a: 0.7 };
    let b = aabb(&r);
    let c = r.a.cos();
    let s = r.a.sin();
    let eps = 1e-5f32;
    for &(dx, dy) in &[
        (-0.2f32, -0.1f32),
        (-0.2, 0.1),
        (0.2, -0.1),
        (0.2, 0.1),
    ] {
        let px = r.x + dx * c - dy * s;
        let py = r.y + dx * s + dy * c;
        assert!(b.x0 - eps <= px && px <= b.x1 + eps);
        assert!(b.y0 - eps <= py && py <= b.y1 + eps);
    }
    // And it is tight: some corner touches each side.
    let corners: Vec<(f32, f32)> = [
        (-0.2f32, -0.1f32),
        (-0.2, 0.1),
        (0.2, -0.1),
        (0.2, 0.1),
    ]
    .iter()
    .map(|&(dx, dy)| (r.x + dx * c - dy * s, r.y + dx * s + dy * c))
    .collect();
    let min_x = corners.iter().map(|p| p.0).fold(f32::INFINITY, f32::min);
    let max_x = corners.iter().map(|p| p.0).fold(f32::NEG_INFINITY, f32::max);
    let min_y = corners.iter().map(|p| p.1).fold(f32::INFINITY, f32::min);
    let max_y = corners.iter().map(|p| p.1).fold(f32::NEG_INFINITY, f32::max);
    assert!((b.x0 - min_x).abs() <= eps && (b.x1 - max_x).abs() <= eps);
    assert!((b.y0 - min_y).abs() <= eps && (b.y1 - max_y).abs() <= eps);
}

#[test]
fn test_intersection_symmetry() {
    let mut rng = Lcg(42);
    for _ in 0..200 {
        let a = RR {
            x: rng.next_f32(),
            y: rng.next_f32(),
            w: 0.05 + rng.next_f32() * 0.5,
            h: 0.05 + rng.next_f32() * 0.5,
            a: 2.0 * PI * rng.next_f32(),
        };
        let b = RR {
            x: rng.next_f32(),
            y: rng.next_f32(),
            w: 0.05 + rng.next_f32() * 0.5,
            h: 0.05 + rng.next_f32() * 0.5,
            a: 2.0 * PI * rng.next_f32(),
        };
        assert_eq!(intersects(&a, &b), intersects(&b, &a));
    }
}

#[test]
fn test_root_cell_overflow_growth() {
    let mut tree: Tree<u16> = Tree::new();
    // The whole world: straddles every boundary, lands at the root.
    let bb = BoundingBox::<u8>::new(0, 0, 255, 255);
    for v in 0..10u16 {
        tree.insert(v, &bb);
        // The root level holds one slot; every further item appends.
        assert_eq!(tree.len(), v as usize + 1);
    }
}

#[test]
fn test_point_box_finest_level() {
    let mut tree: Tree<u8> = Tree::new();
    // A degenerate box sits in a single cell of the finest level,
    // which materializes the whole pyramid.
    let bb = BoundingBox::<u8>::new(7, 7, 7, 7);
    tree.insert(1, &bb);
    assert_eq!(tree.len(), 21845);
}
