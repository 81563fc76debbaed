use storytime_launcher::aggregate::{
    aggregate, assess, comes_before, dedup_by_path, sort_by_rank, Candidate,
};
use storytime_launcher::classifier::Flavor;
use storytime_launcher::listing::{DirEntry, EntryKind};

fn cand(path: &str, score: u32) -> Candidate {
    Candidate { path: path.to_string(), score, flavor: Flavor::Unknown }
}

fn listed(v: &[Candidate]) -> Vec<(String, u32)> {
    v.iter().map(|c| (c.path.clone(), c.score)).collect()
}

#[test]
fn aggregate_orders_by_score_then_path() {
    let raw = vec![cand("/b", 10), cand("/z", 100), cand("/a", 10), cand("/m", 90), cand("/c", 100)];
    let out = aggregate(&raw, &vec![]);
    assert_eq!(
        listed(&out),
        vec![
            ("/c".to_string(), 100),
            ("/z".to_string(), 100),
            ("/m".to_string(), 90),
            ("/a".to_string(), 10),
            ("/b".to_string(), 10),
        ]
    );
}

#[test]
fn aggregate_output_is_sorted_and_without_duplicates() {
    let raw = vec![
        cand("/h/.minecraft/", 100),
        cand("/h/x", 40),
        cand("/h//.minecraft", 100),
        cand("/h/x/.", 10),
        cand("/h/a", 40),
    ];
    let std = vec![cand("/h/.minecraft", 100), cand("/h/y", 50)];
    let out = aggregate(&raw, &std);
    for i in 0..out.len() {
        for j in (i + 1)..out.len() {
            assert!(out[i].score >= out[j].score);
            if out[i].score == out[j].score {
                assert!(out[i].path < out[j].path);
            }
            assert_ne!(out[i].path, out[j].path);
        }
    }
    assert_eq!(
        listed(&out),
        vec![
            ("/h/.minecraft".to_string(), 100),
            ("/h/y".to_string(), 50),
            ("/h/a".to_string(), 40),
            ("/h/x".to_string(), 40),
        ]
    );
}

#[test]
fn the_first_of_equal_paths_is_kept() {
    let raw = vec![cand("/p/", 10), cand("/p", 90)];
    let out = aggregate(&raw, &vec![cand("/p/.", 50)]);
    assert_eq!(listed(&out), vec![("/p".to_string(), 10)]);
}

#[test]
fn aggregate_is_reproducible() {
    let raw = vec![cand("/b", 10), cand("/a", 10), cand("/b/", 20)];
    let once = listed(&aggregate(&raw, &vec![]));
    let twice = listed(&aggregate(&raw, &vec![]));
    assert_eq!(once, twice);
}

#[test]
fn aggregate_of_nothing_is_empty() {
    assert!(aggregate(&vec![], &vec![]).is_empty());
}

#[test]
fn standard_places_are_merged_in() {
    let out = aggregate(&vec![cand("/x", 10)], &vec![cand("/home/u/.minecraft", 100)]);
    assert_eq!(listed(&out), vec![("/home/u/.minecraft".to_string(), 100), ("/x".to_string(), 10)]);
}

#[test]
fn dedup_keeps_the_order_of_arrival() {
    let out = dedup_by_path(&vec![cand("/b", 1), cand("/a/", 2), cand("/b/", 3), cand("/a", 4)]);
    assert_eq!(listed(&out), vec![("/b".to_string(), 1), ("/a".to_string(), 2)]);
}

#[test]
fn sort_by_rank_keeps_ties_in_order() {
    let mut first = cand("/same", 5);
    first.flavor = Flavor::Vanilla;
    let second = cand("/same", 5);
    let out = sort_by_rank(&vec![cand("/z", 1), first, second, cand("/a", 9)]);
    assert_eq!(out[0].path, "/a");
    assert_eq!(out[1].flavor, Flavor::Vanilla);
    assert_eq!(out[2].flavor, Flavor::Unknown);
    assert_eq!(out[3].path, "/z");
}

#[test]
fn comes_before_compares_score_then_path() {
    assert!(comes_before(&cand("/z", 100), &cand("/a", 10)));
    assert!(!comes_before(&cand("/a", 10), &cand("/z", 100)));
    assert!(comes_before(&cand("/a", 10), &cand("/b", 10)));
    assert!(!comes_before(&cand("/b", 10), &cand("/a", 10)));
    assert!(!comes_before(&cand("/a", 10), &cand("/a", 10)));
}

#[test]
fn assess_classifies_and_scores_in_normal_form() {
    let entries = vec![DirEntry { name: "mods".to_string(), kind: EntryKind::Dir }];
    let c = assess("/home/u/games//pack/", Some(&entries)).unwrap();
    assert_eq!(c.path, "/home/u/games/pack");
    assert_eq!(c.score, 40);
    assert_eq!(c.flavor, Flavor::Unknown);
    let c = assess("/home/u/.minecraft", Some(&vec![])).unwrap();
    assert_eq!(c.score, 100);
    assert_eq!(c.flavor, Flavor::Vanilla);
    assert!(assess("/home/u/docs", Some(&vec![])).is_none());
    assert!(assess("/home/u/.minecraft", None).is_none());
}

#[test]
fn the_list_does_not_depend_on_the_order_of_arrival() {
    let make = |order: &[usize]| -> Vec<Candidate> {
        let pool = [
            ("/h/.minecraft/", 100),
            ("/h/x", 40),
            ("/h//.minecraft", 100),
            ("/h/a", 40),
            ("/h/y/", 50),
        ];
        order.iter().map(|i| cand(pool[*i].0, pool[*i].1)).collect()
    };
    let first = listed(&aggregate(&make(&[0, 1, 2, 3, 4]), &vec![]));
    for order in [[4, 3, 2, 1, 0], [2, 0, 4, 1, 3], [1, 4, 0, 3, 2], [3, 2, 1, 0, 4]] {
        assert_eq!(listed(&aggregate(&make(&order), &vec![])), first);
        assert_eq!(listed(&aggregate(&make(&order[..2]), &make(&order[2..]))), first);
    }
}
