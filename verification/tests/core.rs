use supercluster::builder::max_items;
use supercluster::expansion::Expansion;
use supercluster::{
    ClusterData, ClusterId, ClusterInfo, Supercluster, SuperclusterBuilder, SuperclusterError,
    SuperclusterOptions,
};

/// An index over `n` points, all of which lie within the radius of each
/// other at every zoom.
fn all_together(n: usize, options: SuperclusterOptions) -> Supercluster {
    let mut builder = SuperclusterBuilder::new_with_options(n, options);
    for _ in 0..n {
        builder.add();
    }
    while builder.zoom().is_some() {
        let len = builder.len();
        let neighbors: Vec<Vec<usize>> = (0..len).map(|_| (0..len).collect()).collect();
        builder.cluster(&neighbors);
    }
    builder.finish()
}

/// An index over `n` points, none of which lies within the radius of
/// another at any zoom.
fn all_apart(n: usize, options: SuperclusterOptions) -> Supercluster {
    let mut builder = SuperclusterBuilder::new_with_options(n, options);
    for _ in 0..n {
        builder.add();
    }
    while builder.zoom().is_some() {
        let len = builder.len();
        let neighbors: Vec<Vec<usize>> = (0..len).map(|i| vec![i]).collect();
        builder.cluster(&neighbors);
    }
    builder.finish()
}

fn whole_layer(index: &Supercluster, zoom: usize) -> Vec<usize> {
    (0..index.layer_len(zoom)).collect()
}

#[test]
fn test_get_origin_idx() {
    let id = ClusterId::new_source_id(100);
    let x = id.get_origin_idx(0);
    assert_eq!(x, 3);
}

#[test]
fn cluster_id_packs_index_zoom_and_length() {
    assert_eq!(ClusterId::new(0, 0, 0).as_usize(), 1);
    assert_eq!(ClusterId::new(0, 0, 2).as_usize(), 3);
    assert_eq!(ClusterId::new(1, 0, 2).as_usize(), 35);
    assert_eq!(ClusterId::new(7, 16, 1000).as_usize(), 7 * 32 + 17 + 1000);
    assert_eq!(ClusterId::new(3, 30, 10).as_usize(), 3 * 32 + 31 + 10);
}

#[test]
fn cluster_id_round_trip() {
    for length in [0usize, 1, 5, 1000] {
        for zoom in 0..=30usize {
            for i in [0usize, 1, 2, 31, 32, 33, 4096] {
                let id = ClusterId::new(i, zoom, length);
                assert!(id.as_usize() >= length);
                assert_eq!(id.get_origin_idx(length), i);
                assert_eq!(id.get_origin_zoom(length), zoom + 1);
            }
        }
    }
}

#[test]
fn source_id_is_the_insertion_index() {
    assert_eq!(ClusterId::new_source_id(0).as_usize(), 0);
    assert_eq!(ClusterId::new_source_id(41).as_usize(), 41);
    assert_eq!(ClusterId::new_source_id(41), ClusterId(41));
}

#[test]
fn identifiers_convert_to_integers() {
    assert_eq!(usize::from(ClusterId::new_source_id(41)), 41);
    assert_eq!(usize::from(ClusterId::new(1, 0, 2)), 35);
    let info = ClusterInfo::new_cluster(ClusterId(35), 2);
    assert_eq!(ClusterId::from(&info), ClusterId(35));
    assert_eq!(ClusterId::from(info), ClusterId(35));
}

#[test]
fn origin_zoom_is_the_low_five_bits() {
    let id = ClusterId::new_source_id(100);
    assert_eq!(id.get_origin_zoom(0), 4);
    assert_eq!(id.get_origin_zoom(36), 0);
    assert_eq!(id.get_origin_idx(36), 2);
}

#[test]
fn default_options() {
    let options = SuperclusterOptions::new();
    assert_eq!(options.min_zoom, 0);
    assert_eq!(options.max_zoom, 16);
    assert_eq!(options.min_points, 2);
    assert_eq!(options.node_size, 64);
    assert_eq!(options, SuperclusterOptions::default());
    assert!(options.is_valid());
}

#[test]
fn options_builders_change_one_field() {
    let options = SuperclusterOptions::new()
        .with_min_zoom(2)
        .with_max_zoom(5)
        .with_min_points(3)
        .with_node_size(16);
    assert_eq!(
        options,
        SuperclusterOptions { min_zoom: 2, max_zoom: 5, min_points: 3, node_size: 16 }
    );
    assert!(options.is_valid());
    assert!(!options.with_max_zoom(31).is_valid());
    assert!(options.with_max_zoom(30).is_valid());
    assert!(!options.with_min_zoom(6).is_valid());
    assert!(options.with_min_zoom(5).is_valid());
}

#[test]
fn error_message() {
    assert_eq!(SuperclusterError::NoClusterFound.message(), "No cluster with the specified id.");
}

#[test]
fn new_record_is_an_untouched_point() {
    let record = ClusterData::new(ClusterId::new_source_id(7));
    assert_eq!(
        record,
        ClusterData { zoom: None, source_id: ClusterId(7), parent_id: None, num_points: 1 }
    );
    assert!(!record.is_consumed(0));
    let seen = ClusterData { zoom: Some(3), ..record };
    assert!(seen.is_consumed(3));
    assert!(seen.is_consumed(4));
    assert!(!seen.is_consumed(2));
}

#[test]
fn info_of_a_record() {
    let leaf = ClusterData::new(ClusterId::new_source_id(7));
    let info = ClusterInfo::from_record(&leaf);
    assert_eq!(info, ClusterInfo::new_leaf(ClusterId(7)));
    assert_eq!(info.id(), ClusterId(7));
    assert!(!info.is_cluster());
    assert_eq!(info.count(), 1);
    let cluster =
        ClusterData { zoom: None, source_id: ClusterId(99), parent_id: None, num_points: 5 };
    let info = ClusterInfo::from_record(&cluster);
    assert_eq!(info, ClusterInfo::new_cluster(ClusterId(99), 5));
    assert!(info.is_cluster());
    assert_eq!(info.count(), 5);
}

#[test]
fn max_items_leaves_room_for_identifiers() {
    let n = max_items();
    assert_eq!(n, (usize::MAX - 32) / 33);
    assert!(n.checked_mul(33).and_then(|v| v.checked_add(32)).is_some());
    assert!((n + 1).checked_mul(33).and_then(|v| v.checked_add(32)).is_none());
}

#[test]
fn add_returns_insertion_indices() {
    let mut builder = SuperclusterBuilder::new(3);
    assert_eq!(builder.num_items(), 3);
    assert_eq!(builder.options(), SuperclusterOptions::new());
    assert!(!builder.is_filled());
    assert_eq!(builder.add(), 0);
    assert_eq!(builder.add(), 1);
    assert!(!builder.is_filled());
    assert_eq!(builder.add(), 2);
    assert!(builder.is_filled());
    assert_eq!(builder.len(), 3);
    assert_eq!(builder.zoom(), Some(16));
    assert_eq!(builder.record(2), ClusterData::new(ClusterId(2)));
}

#[test]
fn visit_forms_a_cluster_of_seed_and_hits() {
    let options = SuperclusterOptions::new().with_max_zoom(0);
    let mut builder = SuperclusterBuilder::new_with_options(3, options);
    for _ in 0..3 {
        builder.add();
    }
    assert_eq!(builder.zoom(), Some(0));
    assert_eq!(builder.next_seed(), Some(0));
    // The seed itself and a repeated hit are taken once.
    let visit = builder.visit(&vec![2, 0, 2]);
    assert_eq!(visit.cluster, Some(ClusterId(0 * 32 + 1 + 3)));
    assert_eq!(visit.members, vec![2]);
    assert_eq!(builder.emitted_len(), 1);
    assert_eq!(
        builder.record(0),
        ClusterData { zoom: Some(0), source_id: ClusterId(0), parent_id: Some(ClusterId(4)), num_points: 1 }
    );
    assert_eq!(
        builder.record(2),
        ClusterData { zoom: Some(0), source_id: ClusterId(2), parent_id: Some(ClusterId(4)), num_points: 1 }
    );
    assert_eq!(builder.record(1), ClusterData::new(ClusterId(1)));
    // The scan goes on with the record that was not taken.
    assert_eq!(builder.next_seed(), Some(1));
    let visit = builder.visit(&vec![0, 1, 2]);
    assert_eq!(visit.cluster, None);
    assert_eq!(visit.members, Vec::<usize>::new());
    assert_eq!(builder.emitted_len(), 2);
    assert_eq!(builder.next_seed(), None);
    builder.descend();
    assert_eq!(builder.zoom(), None);
    assert_eq!(builder.len(), 2);
    assert_eq!(
        builder.record(0),
        ClusterData { zoom: None, source_id: ClusterId(4), parent_id: None, num_points: 2 }
    );
    assert_eq!(
        builder.record(1),
        ClusterData { zoom: Some(0), source_id: ClusterId(1), parent_id: None, num_points: 1 }
    );
    let index = builder.finish();
    assert_eq!(index.num_points(), 3);
    assert_eq!(index.options(), options);
    assert_eq!(index.layer_len(0), 2);
    assert_eq!(index.layer_len(1), 3);
}

#[test]
fn too_few_points_pass_on_unclustered() {
    let options = SuperclusterOptions::new().with_max_zoom(1).with_min_points(4);
    let mut builder = SuperclusterBuilder::new_with_options(3, options);
    for _ in 0..3 {
        builder.add();
    }
    assert_eq!(builder.next_seed(), Some(0));
    let visit = builder.visit(&vec![1, 0, 2]);
    assert_eq!(visit.cluster, None);
    assert_eq!(visit.members, vec![1, 2]);
    // The seed and the members pass on as they are, and are not visited again.
    assert_eq!(builder.emitted_len(), 3);
    assert_eq!(builder.next_seed(), None);
    builder.descend();
    assert_eq!(builder.zoom(), Some(0));
    for j in 0..3 {
        assert_eq!(
            builder.record(j),
            ClusterData { zoom: Some(1), source_id: ClusterId(j), parent_id: None, num_points: 1 }
        );
    }
}

#[test]
fn min_points_counts_the_points_not_the_records() {
    // Four points: 0 and 1 cluster at zoom 1; at zoom 0 the leaf 2 takes
    // that cluster along, and they count as three points.
    let options = SuperclusterOptions::new().with_max_zoom(1).with_min_points(3);
    let mut builder = SuperclusterBuilder::new_with_options(4, options.with_min_points(2));
    let _ = options;
    for _ in 0..4 {
        builder.add();
    }
    builder.cluster(&vec![vec![0, 1], vec![0, 1], vec![2], vec![3]]);
    assert_eq!(builder.len(), 3);
    assert_eq!(builder.record(0).num_points, 2);
    assert_eq!(builder.record(0).source_id, ClusterId::new(0, 1, 4));
    assert_eq!(builder.record(1).source_id, ClusterId(2));
    assert_eq!(builder.record(2).source_id, ClusterId(3));
    builder.cluster(&vec![vec![0], vec![1, 0], vec![2]]);
    let index = builder.finish();
    // Seed 0 is the cluster and has no one in reach; seed 1 takes it along.
    let data = index.data(0);
    assert_eq!(data.len(), 3);
    assert_eq!(data[0].source_id, ClusterId::new(0, 1, 4));
    assert_eq!(data[1].source_id, ClusterId(2));
    assert_eq!(data[2].source_id, ClusterId(3));
}

#[test]
fn a_cluster_in_reach_counts_with_all_its_points() {
    let options = SuperclusterOptions::new().with_max_zoom(1).with_min_points(3);
    let mut builder = SuperclusterBuilder::new_with_options(4, options);
    for _ in 0..4 {
        builder.add();
    }
    // At zoom 1 three points meet the minimum; the fourth is alone.
    builder.cluster(&vec![vec![0, 1, 2], vec![0, 1, 2], vec![0, 1, 2], vec![3]]);
    assert_eq!(builder.len(), 2);
    // At zoom 0 the single point is the second seed; the first is the cluster
    // of three, which takes the point along: one neighbour, four points.
    builder.cluster(&vec![vec![0, 1], vec![0, 1]]);
    let index = builder.finish();
    let data = index.data(0);
    assert_eq!(data.len(), 1);
    assert_eq!(data[0].num_points, 4);
    assert_eq!(data[0].source_id, ClusterId::new(0, 0, 4));
    let upper = index.data(1);
    assert_eq!(upper[0].parent_id, Some(ClusterId::new(0, 0, 4)));
    assert_eq!(upper[1].parent_id, Some(ClusterId::new(0, 0, 4)));
}

#[test]
fn count_conservation() {
    let options = SuperclusterOptions::new().with_max_zoom(3);
    for n in [0usize, 1, 2, 5, 17] {
        for index in [all_together(n, options), all_apart(n, options)] {
            for zoom in 0..=4usize {
                let total: usize = index.data(zoom).iter().map(|r| r.num_points).sum();
                assert_eq!(total, n);
            }
        }
    }
}

#[test]
fn parent_consistency() {
    let options = SuperclusterOptions::new().with_max_zoom(2);
    let mut builder = SuperclusterBuilder::new_with_options(6, options);
    for _ in 0..6 {
        builder.add();
    }
    builder.cluster(&vec![vec![0, 1], vec![1, 0], vec![2], vec![3, 4], vec![4, 3], vec![5]]);
    builder.cluster(&vec![vec![0, 1], vec![1, 0], vec![2], vec![3]]);
    builder.cluster(&vec![vec![0, 1, 2], vec![0, 1, 2], vec![0, 1, 2]]);
    let index = builder.finish();
    let mut links = 0;
    for zoom in 0..=2usize {
        let upper = index.data(zoom + 1);
        let lower = index.data(zoom);
        for record in upper.iter() {
            if let Some(parent) = record.parent_id {
                links += 1;
                let under: usize = upper
                    .iter()
                    .filter(|r| r.parent_id == Some(parent))
                    .map(|r| r.num_points)
                    .sum();
                let found: Vec<&ClusterData> =
                    lower.iter().filter(|r| r.source_id == parent).collect();
                assert_eq!(found.len(), 1);
                assert_eq!(found[0].num_points, under);
                assert!(found[0].num_points > 1);
                assert_eq!(parent.get_origin_zoom(6), zoom + 1);
                assert_eq!(upper[parent.get_origin_idx(6)].parent_id, Some(parent));
            }
        }
    }
    assert_eq!(links, 4 + 2 + 3);
    assert_eq!(index.data(0).len(), 1);
    assert_eq!(index.data(0)[0].num_points, 6);
}

#[test]
fn clamp_zoom_stays_within_the_ladder() {
    let options = SuperclusterOptions::new().with_min_zoom(2).with_max_zoom(5);
    let index = all_apart(3, options);
    assert_eq!(index.clamp_zoom(0), 2);
    assert_eq!(index.clamp_zoom(2), 2);
    assert_eq!(index.clamp_zoom(4), 4);
    assert_eq!(index.clamp_zoom(6), 6);
    assert_eq!(index.clamp_zoom(7), 6);
    assert_eq!(index.clamp_zoom(usize::MAX), 6);
}

#[test]
fn whole_world_at_min_zoom_is_the_full_layer() {
    let options = SuperclusterOptions::new().with_min_zoom(1).with_max_zoom(3);
    let index = all_together(5, options);
    for zoom in [0usize, 1] {
        let hits = whole_layer(&index, zoom);
        let infos = index.get_clusters(zoom, &hits);
        assert_eq!(infos, vec![ClusterInfo::new_cluster(ClusterId::new(0, 3, 5), 5)]);
        assert_eq!(infos.len(), index.data(1).len());
    }
}

#[test]
fn above_max_zoom_the_leaves_are_reported() {
    let options = SuperclusterOptions::new().with_max_zoom(3);
    let index = all_together(5, options);
    for zoom in [4usize, 5, 100] {
        let hits = whole_layer(&index, zoom);
        assert_eq!(hits.len(), 5);
        let infos = index.get_clusters(zoom, &hits);
        let expected: Vec<ClusterInfo> =
            (0..5).map(|j| ClusterInfo::new_leaf(ClusterId(j))).collect();
        assert_eq!(infos, expected);
    }
    // The hits decide what is reported, and in which order.
    let infos = index.get_clusters(4, &vec![3, 1, 3]);
    assert_eq!(
        infos,
        vec![
            ClusterInfo::new_leaf(ClusterId(3)),
            ClusterInfo::new_leaf(ClusterId(1)),
            ClusterInfo::new_leaf(ClusterId(3)),
        ]
    );
}

#[test]
fn single_point_is_a_leaf_at_every_zoom() {
    for index in [all_together(1, SuperclusterOptions::new()), all_apart(1, SuperclusterOptions::new())] {
        for zoom in 0..=17usize {
            let hits = whole_layer(&index, zoom);
            let infos = index.get_clusters(zoom, &hits);
            assert_eq!(infos, vec![ClusterInfo::new_leaf(ClusterId(0))]);
        }
    }
}

#[test]
fn fewer_points_than_min_points_form_no_cluster() {
    for min_points in [2usize, 3, 5] {
        let options = SuperclusterOptions::new().with_min_points(min_points);
        let n = min_points - 1;
        let index = all_together(n, options);
        for zoom in 0..=17usize {
            let hits = whole_layer(&index, zoom);
            let infos = index.get_clusters(zoom, &hits);
            assert_eq!(infos.len(), n);
            assert!(infos.iter().all(|info| !info.is_cluster() && info.count() == 1));
        }
    }
}

#[test]
fn locate_decodes_and_checks_the_identifier() {
    let options = SuperclusterOptions::new().with_min_zoom(1).with_max_zoom(2);
    let index = all_together(3, options);
    // Source points are no clusters.
    assert_eq!(index.locate(ClusterId(0)), Err(SuperclusterError::NoClusterFound));
    assert_eq!(index.locate(ClusterId(2)), Err(SuperclusterError::NoClusterFound));
    // Zoom field 0: below the minimum zoom.
    assert_eq!(index.locate(ClusterId(3)), Err(SuperclusterError::NoClusterFound));
    // Zoom fields 1 to 3 have layers, of 1, 1 and 3 records.
    assert_eq!(index.locate(ClusterId(3 + 1)), Ok((1, 0)));
    assert_eq!(index.locate(ClusterId(3 + 2)), Ok((2, 0)));
    assert_eq!(index.locate(ClusterId(3 + 3)), Ok((3, 0)));
    assert_eq!(index.locate(ClusterId(3 + 3 + 2 * 32)), Ok((3, 2)));
    assert_eq!(index.locate(ClusterId(3 + 3 + 3 * 32)), Err(SuperclusterError::NoClusterFound));
    assert_eq!(index.locate(ClusterId(3 + 2 + 32)), Err(SuperclusterError::NoClusterFound));
    // Zoom field 4: above the full-resolution layer.
    assert_eq!(index.locate(ClusterId(3 + 4)), Err(SuperclusterError::NoClusterFound));
}

#[test]
fn children_are_the_hits_that_point_at_the_cluster() {
    let options = SuperclusterOptions::new().with_max_zoom(1);
    let mut builder = SuperclusterBuilder::new_with_options(5, options);
    for _ in 0..5 {
        builder.add();
    }
    builder.cluster(&vec![vec![0, 1, 2], vec![], vec![], vec![3, 4], vec![]]);
    builder.cluster(&vec![vec![1, 0], vec![]]);
    let index = builder.finish();
    let first = ClusterId::new(0, 1, 5);
    let second = ClusterId::new(3, 1, 5);
    let top = ClusterId::new(0, 0, 5);
    assert_eq!(index.locate(first), Ok((2, 0)));
    assert_eq!(index.locate(second), Ok((2, 3)));
    assert_eq!(index.locate(top), Ok((1, 0)));
    let all = vec![0, 1, 2, 3, 4];
    assert_eq!(
        index.get_children(first, &all),
        Ok(vec![
            ClusterInfo::new_leaf(ClusterId(0)),
            ClusterInfo::new_leaf(ClusterId(1)),
            ClusterInfo::new_leaf(ClusterId(2)),
        ])
    );
    assert_eq!(index.child_hits(first, &all), vec![0, 1, 2]);
    assert_eq!(
        index.get_children(second, &vec![4, 0, 3]),
        Ok(vec![ClusterInfo::new_leaf(ClusterId(4)), ClusterInfo::new_leaf(ClusterId(3))])
    );
    assert_eq!(index.child_hits(second, &vec![4, 0, 3]), vec![4, 3]);
    assert_eq!(
        index.get_children(top, &vec![0, 1]),
        Ok(vec![ClusterInfo::new_cluster(first, 3), ClusterInfo::new_cluster(second, 2)])
    );
    // Hits that miss every child, an identifier that names no cluster, and
    // one that names no record.
    assert_eq!(index.get_children(first, &vec![3, 4]), Err(SuperclusterError::NoClusterFound));
    assert_eq!(index.get_children(first, &vec![]), Err(SuperclusterError::NoClusterFound));
    assert_eq!(index.get_children(ClusterId(2), &all), Err(SuperclusterError::NoClusterFound));
    assert_eq!(
        index.get_children(ClusterId::new(1, 1, 5), &all),
        Err(SuperclusterError::NoClusterFound)
    );
    assert_eq!(
        index.get_children(ClusterId::new(9, 1, 5), &all),
        Err(SuperclusterError::NoClusterFound)
    );
    assert_eq!(index.child_hits(ClusterId(2), &all), Vec::<usize>::new());
}

#[test]
fn expansion_search_follows_single_children() {
    let options = SuperclusterOptions::new().with_max_zoom(4);
    let index = all_apart(3, options);
    let id = ClusterId::new(0, 1, 3);
    let start = index.get_cluster_expansion_zoom(id);
    assert_eq!(start, Ok(Expansion::Ask { cluster_id: id, zoom: 2 }));
    let asked = start.unwrap();
    assert_eq!(asked.zoom(), 2);
    // Several children, or none: the cluster expands here.
    let two = vec![ClusterInfo::new_leaf(ClusterId(0)), ClusterInfo::new_leaf(ClusterId(1))];
    assert_eq!(index.expand(asked, &two), Expansion::Done { zoom: 2 });
    assert_eq!(index.expand(asked, &vec![]), Expansion::Done { zoom: 2 });
    // A single child: the search goes on with it, one zoom up.
    let child = ClusterId::new(5, 2, 3);
    let one = vec![ClusterInfo::new_cluster(child, 2)];
    let next = index.expand(asked, &one);
    assert_eq!(next, Expansion::Ask { cluster_id: child, zoom: 3 });
    let next = index.expand(next, &one);
    assert_eq!(next, Expansion::Ask { cluster_id: child, zoom: 4 });
    let next = index.expand(next, &one);
    assert_eq!(next, Expansion::Ask { cluster_id: child, zoom: 5 });
    // Past the maximum zoom the search is over.
    let last = index.expand(next, &one);
    assert_eq!(last, Expansion::Done { zoom: 5 });
    assert_eq!(index.expand(last, &one), last);
}

#[test]
fn expansion_search_start() {
    let options = SuperclusterOptions::new().with_max_zoom(4);
    let index = all_apart(3, options);
    assert_eq!(
        index.get_cluster_expansion_zoom(ClusterId(2)),
        Err(SuperclusterError::NoClusterFound)
    );
    assert_eq!(
        index.get_cluster_expansion_zoom(ClusterId(3)),
        Ok(Expansion::Ask { cluster_id: ClusterId(3), zoom: 0 })
    );
    assert_eq!(
        index.get_cluster_expansion_zoom(ClusterId(3 + 5)),
        Ok(Expansion::Ask { cluster_id: ClusterId(8), zoom: 5 })
    );
    assert_eq!(
        index.get_cluster_expansion_zoom(ClusterId(3 + 6)),
        Ok(Expansion::Done { zoom: 5 })
    );
    assert_eq!(
        index.get_cluster_expansion_zoom(ClusterId(3 + 31)),
        Ok(Expansion::Done { zoom: 30 })
    );
}

#[test]
fn expansion_zoom_is_above_the_zoom_of_origin() {
    let options = SuperclusterOptions::new().with_max_zoom(4);
    let index = all_apart(3, options);
    let one = vec![ClusterInfo::new_cluster(ClusterId(40), 2)];
    for zoom in 0..=4usize {
        let id = ClusterId::new(0, zoom, 3);
        let mut state = index.get_cluster_expansion_zoom(id).unwrap();
        assert!(state.zoom() > zoom);
        for _ in 0..8 {
            let next = index.expand(state, &one);
            assert!(next.zoom() >= state.zoom());
            assert!(next.zoom() > zoom);
            state = next;
        }
        assert_eq!(state, Expansion::Done { zoom: 5 });
    }
}

fn leaves_of(ids: &[usize]) -> Vec<ClusterInfo> {
    ids.iter().map(|&j| ClusterInfo::new_leaf(ClusterId(j))).collect()
}

#[test]
fn leaf_walk_collects_in_depth_first_order() {
    let index = all_apart(1, SuperclusterOptions::new());
    let root = ClusterId(100);
    let inner = ClusterId(200);
    let mut walk = index.get_leaves(root, None, None);
    assert_eq!(walk.asking(), Some(root));
    walk.append_leaves(&vec![
        ClusterInfo::new_leaf(ClusterId(0)),
        ClusterInfo::new_cluster(inner, 2),
        ClusterInfo::new_leaf(ClusterId(3)),
    ]);
    assert_eq!(walk.asking(), Some(inner));
    assert_eq!(walk.leaves(), &leaves_of(&[0]));
    walk.append_leaves(&leaves_of(&[1, 2]));
    assert_eq!(walk.asking(), None);
    assert_eq!(walk.into_leaves(), leaves_of(&[0, 1, 2, 3]));
}

#[test]
fn leaf_walk_stops_at_the_limit() {
    let index = all_apart(1, SuperclusterOptions::new());
    let root = ClusterId(100);
    let mut walk = index.get_leaves(root, Some(2), None);
    walk.append_leaves(&vec![
        ClusterInfo::new_leaf(ClusterId(0)),
        ClusterInfo::new_leaf(ClusterId(1)),
        ClusterInfo::new_cluster(ClusterId(200), 2),
        ClusterInfo::new_leaf(ClusterId(4)),
    ]);
    assert_eq!(walk.asking(), None);
    assert_eq!(walk.into_leaves(), leaves_of(&[0, 1]));
    // The default limit is ten.
    let mut walk = index.get_leaves(root, None, None);
    walk.append_leaves(&leaves_of(&[0, 1, 2, 3, 4, 5, 6, 7, 8, 9, 10, 11]));
    assert_eq!(walk.asking(), None);
    assert_eq!(walk.into_leaves(), leaves_of(&[0, 1, 2, 3, 4, 5, 6, 7, 8, 9]));
    // With a limit of none the children are asked for, and nothing is
    // collected.
    let mut walk = index.get_leaves(root, Some(0), None);
    assert_eq!(walk.asking(), Some(root));
    walk.append_leaves(&leaves_of(&[0, 1]));
    assert_eq!(walk.asking(), None);
    assert_eq!(walk.into_leaves(), leaves_of(&[]));
}

#[test]
fn leaf_walk_skips_the_offset() {
    let index = all_apart(1, SuperclusterOptions::new());
    let root = ClusterId(100);
    let small = ClusterId(200);
    let large = ClusterId(300);
    let children = vec![
        ClusterInfo::new_leaf(ClusterId(0)),
        ClusterInfo::new_cluster(small, 2),
        ClusterInfo::new_cluster(large, 3),
        ClusterInfo::new_leaf(ClusterId(6)),
    ];
    // Offset 3: the first leaf and the whole small cluster are passed over
    // without a question.
    let mut walk = index.get_leaves(root, Some(2), Some(3));
    walk.append_leaves(&children);
    assert_eq!(walk.asking(), Some(large));
    assert_eq!(walk.leaves(), &leaves_of(&[]));
    walk.append_leaves(&leaves_of(&[3, 4, 5]));
    assert_eq!(walk.asking(), None);
    assert_eq!(walk.into_leaves(), leaves_of(&[3, 4]));
    // Offset 4: the large cluster is entered, and its first leaf skipped.
    let mut walk = index.get_leaves(root, Some(10), Some(4));
    walk.append_leaves(&children);
    assert_eq!(walk.asking(), Some(large));
    walk.append_leaves(&leaves_of(&[3, 4, 5]));
    assert_eq!(walk.asking(), None);
    assert_eq!(walk.into_leaves(), leaves_of(&[4, 5, 6]));
    // Offset 2: the small cluster is entered.
    let mut walk = index.get_leaves(root, Some(10), Some(2));
    walk.append_leaves(&children);
    assert_eq!(walk.asking(), Some(small));
    walk.append_leaves(&leaves_of(&[1, 2]));
    assert_eq!(walk.asking(), Some(large));
    assert_eq!(walk.leaves(), &leaves_of(&[2]));
    walk.append_leaves(&leaves_of(&[3, 4, 5]));
    assert_eq!(walk.into_leaves(), leaves_of(&[2, 3, 4, 5, 6]));
    // An offset past every leaf.
    let mut walk = index.get_leaves(root, Some(10), Some(7));
    walk.append_leaves(&children);
    assert_eq!(walk.asking(), None);
    assert_eq!(walk.into_leaves(), leaves_of(&[]));
}
