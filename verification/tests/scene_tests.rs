use rtracer::scene::{SceneBuilder, SceneObject, SceneObjectIndex};

type Span = (i64, i64);

fn span_union(a: Span, b: Span) -> Span {
    (a.0.min(b.0), a.1.max(b.1))
}

// a stand-in primitive: a name plus whether it is bounded
#[derive(Clone, Copy, PartialEq, Eq, Debug)]
struct Prim(&'static str);

#[test]
fn scene_object_pairs_shape_and_material() {
    let obj = SceneObject::new("sphere", "diffuse");
    assert_eq!(obj.shape, "sphere");
    assert_eq!(obj.material, "diffuse");
}

#[test]
fn index_converts_both_ways() {
    let i: SceneObjectIndex = 7usize.into();
    assert_eq!(i, SceneObjectIndex(7));
    let back: usize = i.into();
    assert_eq!(back, 7);
}

#[test]
fn from_maybe_component_defaults() {
    let b: SceneBuilder<Prim, &'static str, (u8, u8, u8)> =
        SceneBuilder::from_maybe_component(None, None, None, (0, 0, 0));
    assert!(b.objects.is_empty());
    assert!(b.lights.is_empty());
    assert_eq!(b.skylight, (0, 0, 0));

    let b: SceneBuilder<Prim, &'static str, (u8, u8, u8)> = SceneBuilder::from_maybe_component(
        Some(vec![Prim("a")]),
        Some(vec!["sun"]),
        Some((1, 2, 3)),
        (0, 0, 0),
    );
    assert_eq!(b.objects, vec![Prim("a")]);
    assert_eq!(b.lights, vec!["sun"]);
    assert_eq!(b.skylight, (1, 2, 3));
}

#[test]
fn build_partitions_by_bounding_box() {
    let builder = SceneBuilder {
        objects: vec![Prim("sphere"), Prim("plane"), Prim("disc")],
        lights: vec!["point"],
        skylight: (5u8, 7u8, 10u8),
    };
    // the plane has no box and must be routed around the hierarchy
    let boxes: Vec<Option<(u64, Span)>> = vec![Some((2, (0, 1))), None, Some((1, (4, 5)))];
    let scene = builder.build(&boxes, span_union);

    assert_eq!(scene.bounded().as_slice(), &[Prim("sphere"), Prim("disc")]);
    assert_eq!(scene.unbounded().as_slice(), &[Prim("plane")]);
    assert_eq!(scene.lights().as_slice(), &["point"]);
    assert_eq!(*scene.skylight(), (5, 7, 10));
    assert_eq!(scene.get_skylight(), (5, 7, 10));

    // two bounded primitives: three nodes, every leaf a valid index
    assert_eq!(scene.bvh().flat_tree().len(), 3);
    let mut buffer = Vec::new();
    let mut hits: Vec<usize> = scene
        .bvh()
        .query_leaf(|_n| false, &mut buffer)
        .into_iter()
        .map(|SceneObjectIndex(i)| i)
        .collect();
    hits.sort_unstable();
    assert_eq!(hits, vec![0, 1]);
}

#[test]
fn skylight_can_be_adjusted_after_build() {
    let builder: SceneBuilder<Prim, &'static str, (u8, u8, u8)> = SceneBuilder {
        objects: vec![],
        lights: vec![],
        skylight: (0, 0, 0),
    };
    let boxes: Vec<Option<(u64, Span)>> = vec![];
    let mut scene = builder.build(&boxes, span_union);
    *scene.skylight_mut() = (9, 9, 9);
    assert_eq!(scene.get_skylight(), (9, 9, 9));
}
