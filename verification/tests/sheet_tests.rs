use whstlrs::pipeline::{
    build_mesh, convert_path, plan_primitives, JobGeometry, JobKind, PathEvt,
};
use whstlrs::score::{
    collect_paths, Paint, PathSegment, PointBits, ScoreGroup, ScoreNode, ScorePath, Transform2x3,
};
use whstlrs::sheet::{notehead_match, NoteheadBox, SheetRenderer};
use whstlrs::song::SongNote;

fn pt(x: u32, y: u32) -> PointBits {
    PointBits { x, y }
}

fn ident() -> Transform2x3 {
    Transform2x3 { sx: 1, kx: 0, ky: 0, sy: 1, tx: 0, ty: 0 }
}

fn black() -> Paint {
    Paint { red: 0, green: 0, blue: 0, alpha: 255 }
}

fn filled_path(transform: Transform2x3) -> ScorePath {
    ScorePath {
        transform,
        fill: Some(black()),
        stroke: None,
        segments: vec![
            PathSegment::MoveTo(pt(1, 1)),
            PathSegment::LineTo(pt(2, 1)),
            PathSegment::LineTo(pt(2, 2)),
            PathSegment::Close,
        ],
    }
}

fn group(id: &str, children: Vec<ScoreNode>) -> ScoreGroup {
    ScoreGroup { id: String::from(id), children }
}

#[test]
fn paths_inherit_the_nearest_group_id() {
    // A path directly inside a group with id "n-1" adopts "n-1"; a path
    // inside an inner group with id "n-2" adopts "n-2"; an inner group
    // without an id passes "n-1" on.
    let tree = group(
        "",
        vec![
            ScoreNode::Group(group(
                "n-1",
                vec![
                    ScoreNode::Path(filled_path(ident())),
                    ScoreNode::Group(group("n-2", vec![ScoreNode::Path(filled_path(ident()))])),
                    ScoreNode::Group(group("", vec![ScoreNode::Path(filled_path(ident()))])),
                ],
            )),
            ScoreNode::Path(filled_path(ident())),
        ],
    );
    let mut paths: Vec<(ScorePath, String)> = Vec::new();
    collect_paths(&tree, &mut paths, "");
    let ids: Vec<&str> = paths.iter().map(|p| p.1.as_str()).collect();
    assert_eq!(ids, vec!["n-1", "n-2", "n-1", ""]);
}

#[test]
fn planning_dedups_consecutive_transforms() {
    let t1 = ident();
    let t2 = Transform2x3 { sx: 2, ..ident() };
    let paths = vec![
        (filled_path(t1), String::from("a")),
        (filled_path(t1), String::from("b")),
        (filled_path(t2), String::from("c")),
        (filled_path(t1), String::from("d")),
    ];
    let plan = plan_primitives(&paths);
    assert_eq!(plan.transforms.len(), 3);
    assert_eq!(plan.primitives.len(), 4);
    assert_eq!(plan.primitives[0].transform, 0);
    assert_eq!(plan.primitives[1].transform, 0);
    assert_eq!(plan.primitives[2].transform, 1);
    assert_eq!(plan.primitives[3].transform, 2);
}

#[test]
fn planning_partitions_primitives_into_groups() {
    let paths = vec![
        (filled_path(ident()), String::from("a")),
        (filled_path(ident()), String::from("b")),
        (filled_path(ident()), String::from("a")),
        (filled_path(ident()), String::from("")),
    ];
    let plan = plan_primitives(&paths);
    assert_eq!(plan.groups.len(), 2);
    assert_eq!(plan.groups[0].id, "a");
    assert_eq!(plan.groups[0].prims, vec![0, 2]);
    assert_eq!(plan.groups[1].id, "b");
    assert_eq!(plan.groups[1].prims, vec![1]);
    // No primitive index stands in two groups.
    let mut seen: Vec<usize> = Vec::new();
    for g in &plan.groups {
        for &p in &g.prims {
            assert!(!seen.contains(&p));
            seen.push(p);
        }
    }
}

#[test]
fn stroke_makes_a_second_primitive_without_group_entry() {
    let mut p = filled_path(ident());
    p.stroke = Some(whstlrs::score::StrokeStyle {
        paint: Paint { red: 9, green: 9, blue: 9, alpha: 255 },
        width: 0,
        cap: whstlrs::score::StrokeCap::Butt,
        join: whstlrs::score::StrokeJoin::Miter,
    });
    let paths = vec![(p, String::from("a"))];
    let plan = plan_primitives(&paths);
    assert_eq!(plan.primitives.len(), 2);
    assert_eq!(plan.jobs.len(), 2);
    assert!(matches!(plan.jobs[0].kind, JobKind::Fill));
    assert!(matches!(plan.jobs[1].kind, JobKind::Stroke(_)));
    assert_eq!(plan.groups.len(), 1);
    assert_eq!(plan.groups[0].prims, vec![0]);
}

#[test]
fn path_events_walk_the_outline() {
    let p = filled_path(ident());
    let evs = convert_path(&p);
    assert_eq!(evs.len(), 4);
    assert!(matches!(evs[0], PathEvt::Begin { at } if at == pt(1, 1)));
    assert!(matches!(evs[1], PathEvt::Line { to, .. } if to == pt(2, 1)));
    assert!(matches!(evs[2], PathEvt::Line { to, .. } if to == pt(2, 2)));
    assert!(matches!(evs[3], PathEvt::End { close: true, .. }));
}

#[test]
fn open_outline_gets_a_final_end() {
    let p = ScorePath {
        transform: ident(),
        fill: Some(black()),
        stroke: None,
        segments: vec![PathSegment::MoveTo(pt(5, 5)), PathSegment::LineTo(pt(6, 5))],
    };
    let evs = convert_path(&p);
    assert_eq!(evs.len(), 3);
    assert!(matches!(evs[2], PathEvt::End { close: false, .. }));
}

#[test]
fn mesh_assembly_offsets_indices_and_tags_vertices() {
    let paths = vec![
        (filled_path(ident()), String::from("a")),
        (filled_path(ident()), String::from("b")),
    ];
    let plan = plan_primitives(&paths);
    let tri = JobGeometry {
        vertices: vec![pt(0, 0), pt(1, 0), pt(0, 1)],
        indices: vec![0, 1, 2],
    };
    let tri2 = JobGeometry {
        vertices: vec![pt(3, 3), pt(4, 3), pt(3, 4)],
        indices: vec![0, 2, 1],
    };
    let results = vec![Some(tri), Some(tri2)];
    let mesh = build_mesh(&plan.jobs, &results).unwrap();
    assert_eq!(mesh.vertices.len(), 6);
    assert_eq!(mesh.indices, vec![0, 1, 2, 3, 5, 4]);
    for v in &mesh.vertices[0..3] {
        assert_eq!(v.prim_id, 0);
    }
    for v in &mesh.vertices[3..6] {
        assert_eq!(v.prim_id, 1);
    }
    // Primitive indexing: every vertex names a primitive, every
    // primitive a transform.
    for v in &mesh.vertices {
        assert!((v.prim_id as usize) < plan.primitives.len());
        assert!((plan.primitives[v.prim_id as usize].transform as usize) < plan.transforms.len());
    }
    for &ix in &mesh.indices {
        assert!((ix as usize) < mesh.vertices.len());
    }
}

#[test]
fn failed_fill_tessellation_is_fatal_failed_stroke_is_skipped() {
    let mut p = filled_path(ident());
    p.stroke = Some(whstlrs::score::StrokeStyle {
        paint: black(),
        width: 0,
        cap: whstlrs::score::StrokeCap::Round,
        join: whstlrs::score::StrokeJoin::Round,
    });
    let plan = plan_primitives(&vec![(p, String::from("a"))]);
    let good = JobGeometry { vertices: vec![pt(0, 0)], indices: vec![0] };
    // Stroke failure: mesh still builds, with only the fill's geometry.
    let mesh = build_mesh(&plan.jobs, &vec![Some(good), None]).unwrap();
    assert_eq!(mesh.vertices.len(), 1);
    // Fill failure: fatal.
    let good2 = JobGeometry { vertices: vec![pt(0, 0)], indices: vec![0] };
    assert!(build_mesh(&plan.jobs, &vec![None, Some(good2)]).is_err());
}

fn fingerhole_renderer() -> SheetRenderer {
    let mut paths: Vec<(ScorePath, String)> = Vec::new();
    for k in 1..=6 {
        paths.push((filled_path(ident()), format!("fingerhole-{}", k)));
    }
    paths.push((filled_path(ident()), String::from("n-3")));
    let plan = plan_primitives(&paths);
    let results: Vec<Option<JobGeometry>> = (0u32..7)
        .map(|i| {
            Some(JobGeometry {
                vertices: vec![pt(i, 0), pt(i + 1, 0), pt(i, 1)],
                indices: vec![0, 1, 2],
            })
        })
        .collect();
    let mesh = build_mesh(&plan.jobs, &results).unwrap();
    SheetRenderer::new(plan, mesh, 0xFF0000FF, 0x000000FF)
}

fn active_flags(s: &SheetRenderer) -> Vec<bool> {
    s.states.iter().map(|st| st.active).collect()
}

#[test]
fn live_note_on_poses_the_fingering() {
    // Live note-on for MIDI 67 (G, 0b0111000): holes 1, 2 and 3 active,
    // 4, 5 and 6 inactive.
    let mut sheet = fingerhole_renderer();
    sheet.user_midi_event(&whstlrs::midi::MidiMessage::NoteOn { key: 67, vel: 100 });
    assert_eq!(active_flags(&sheet), vec![true, true, true, false, false, false, false]);
    // A note-off leaves the posed fingering standing.
    sheet.user_midi_event(&whstlrs::midi::MidiMessage::NoteOff { key: 67, vel: 0 });
    assert_eq!(active_flags(&sheet), vec![true, true, true, false, false, false, false]);
}

#[test]
fn song_events_light_and_unlight_noteheads() {
    let mut sheet = fingerhole_renderer();
    let f = whstlrs::song::SongFile::from_str("0.0\tnote\t62\t1\t0.5\tn-3", String::from("s"))
        .unwrap();
    let on = vec![f.events[0].clone()];
    sheet.song_events(&on);
    assert_eq!(active_flags(&sheet)[6], true);
    let off = vec![f.events[1].clone()];
    sheet.song_events(&off);
    assert_eq!(active_flags(&sheet)[6], false);
}

#[test]
fn flush_writes_group_colours_into_primitives() {
    let mut sheet = fingerhole_renderer();
    sheet.user_midi_event(&whstlrs::midi::MidiMessage::NoteOn { key: 71, vel: 100 });
    // B fingers only hole 1 (0b0100000).
    sheet.flush_glyph_states();
    assert_eq!(sheet.plan.primitives[0].color, 0xFF0000FF);
    for p in 1..7 {
        assert_eq!(sheet.plan.primitives[p].color, 0x000000FF);
    }
    // Transforms are untouched by a flush.
    for p in &sheet.plan.primitives {
        assert_eq!(p.transform, 0);
    }
}

#[test]
fn hit_test_matches_centroid_and_misses_outside() {
    let boxes = vec![
        NoteheadBox { id: String::from("n-1"), min_x: 0, min_y: 0, max_x: 10, max_y: 10 },
        NoteheadBox { id: String::from("n-2"), min_x: 20, min_y: 0, max_x: 30, max_y: 10 },
    ];
    assert_eq!(notehead_match(&boxes, 5, 5), Some(String::from("n-1")));
    assert_eq!(notehead_match(&boxes, 25, 5), Some(String::from("n-2")));
    // One logical pixel outside every box: nothing.
    assert_eq!(notehead_match(&boxes, 11, 5), None);
    assert_eq!(notehead_match(&boxes, 5, 11), None);
    assert_eq!(notehead_match(&boxes, -1, 5), None);
}

#[test]
fn overlapping_boxes_resolve_to_the_topmost() {
    let boxes = vec![
        NoteheadBox { id: String::from("under"), min_x: 0, min_y: 0, max_x: 10, max_y: 10 },
        NoteheadBox { id: String::from("over"), min_x: 5, min_y: 5, max_x: 15, max_y: 15 },
    ];
    assert_eq!(notehead_match(&boxes, 7, 7), Some(String::from("over")));
    assert_eq!(notehead_match(&boxes, 2, 2), Some(String::from("under")));
}

#[test]
fn hit_boxes_cover_each_groups_vertices() {
    let sheet = fingerhole_renderer();
    let positions: Vec<(i64, i64)> =
        (0..sheet.mesh.vertices.len()).map(|v| (10 * v as i64, 5)).collect();
    let boxes = sheet.compute_hit_boxes(&positions);
    // Six fingerhole groups are not noteheads; only n-3 gets a box.
    assert_eq!(boxes.len(), 1);
    assert_eq!(boxes[0].id, "n-3");
    assert_eq!(boxes[0].min_x, 180);
    assert_eq!(boxes[0].max_x, 200);
    assert_eq!(boxes[0].min_y, 5);
    assert_eq!(boxes[0].max_y, 5);
}

#[test]
fn click_previews_the_fingering_of_the_hit_note() {
    // Clicking the centroid of notehead n-3, whose note has MIDI key 71
    // (B), poses only finger hole 1.
    let mut sheet = fingerhole_renderer();
    let boxes = vec![NoteheadBox {
        id: String::from("n-3"),
        min_x: 0,
        min_y: 0,
        max_x: 10,
        max_y: 10,
    }];
    let notes = vec![SongNote {
        timestamp_us: 0,
        midi_key: 71,
        duration: 1,
        duration_us: 500_000,
        notehead_id: String::from("n-3"),
    }];
    let hit = sheet.handle_mouse_click(&notes, &boxes, 5, 5);
    assert!(hit);
    assert_eq!(active_flags(&sheet), vec![true, false, false, false, false, false, false]);
    // A click outside every box changes nothing and reports failure.
    let mut sheet2 = fingerhole_renderer();
    assert!(!sheet2.handle_mouse_click(&notes, &boxes, 50, 50));
    assert_eq!(active_flags(&sheet2), vec![false; 7]);
}

#[test]
fn click_on_computed_box_previews_fingering() {
    // End to end: boxes computed from the real mesh, then a click at the
    // centroid of notehead n-3, whose note is MIDI 71 (B): only finger
    // hole 1 poses active.
    let mut sheet = fingerhole_renderer();
    let positions: Vec<(i64, i64)> =
        (0..sheet.mesh.vertices.len()).map(|v| (10 * v as i64, 5)).collect();
    let boxes = sheet.compute_hit_boxes(&positions);
    assert_eq!(boxes.len(), 1);
    let cx = (boxes[0].min_x + boxes[0].max_x) / 2;
    let cy = (boxes[0].min_y + boxes[0].max_y) / 2;
    let notes = vec![SongNote {
        timestamp_us: 0,
        midi_key: 71,
        duration: 1,
        duration_us: 500_000,
        notehead_id: String::from("n-3"),
    }];
    assert!(sheet.handle_mouse_click(&notes, &boxes, cx, cy));
    assert_eq!(active_flags(&sheet), vec![true, false, false, false, false, false, false]);
}
