use xnote_core::gen_vault::{
    gen_depth, gen_markdown_content, gen_note_name, order_sample, plan_note, shuffle,
    vault_folders, Rng,
};

#[test]
fn splitmix64_matches_its_reference_sequence() {
    let mut rng = Rng::new(0);
    assert_eq!(rng.next_u64(), 0xE220A8397B1DCDAF);
    assert_eq!(rng.next_u64(), 0x6E789E6AA1B965F4);
    assert_eq!(rng.next_u64(), 0x06C45D188009454F);
}

#[test]
fn same_seed_draws_the_same_notes() {
    let mut a = Rng::new(42);
    let mut b = Rng::new(42);
    let pa = plan_note(&mut a, 3, 10, 5, 100, 200, 50);
    let pb = plan_note(&mut b, 3, 10, 5, 100, 200, 50);
    assert_eq!(pa.depth, pb.depth);
    assert_eq!(pa.file_name, pb.file_name);
    assert_eq!(pa.content, pb.content);
    assert!(pa.depth <= 5);
    assert!(pa.file_name.starts_with("n000003_") && pa.file_name.ends_with(".md"));
    assert!(pa.content.len() >= 101 && pa.content.len() <= 201);
}

#[test]
fn note_name_is_number_and_ten_characters() {
    let mut rng = Rng::new(7);
    let name = gen_note_name(&mut rng, 42);
    assert!(name.starts_with("n000042_"));
    assert_eq!(name.len(), 18);
    assert!(name[8..].chars().all(|c| c.is_ascii_lowercase() || c.is_ascii_digit()));
}

#[test]
fn markdown_content_is_cut_to_target_and_ends_with_newline() {
    let mut rng = Rng::new(1);
    let text = gen_markdown_content(&mut rng, 7, 0, 30, false);
    assert_eq!(text, "# Note 000007\n\nLorem ipsum dol\n");
    let short = gen_markdown_content(&mut rng, 1, 0, 3, false);
    assert_eq!(short, "# N\n");
}

#[test]
fn depth_stays_within_bounds() {
    let mut rng = Rng::new(9);
    for _ in 0..100 {
        assert!(gen_depth(&mut rng, 2) <= 2);
    }
    assert_eq!(gen_depth(&mut rng, 0), 0);
}

#[test]
fn folder_chain_names_each_level() {
    assert_eq!(
        vault_folders(2),
        vec!["notes".to_string(), "notes/d000".to_string(), "notes/d000/d001".to_string()]
    );
}

#[test]
fn shuffle_keeps_every_item() {
    let mut rng = Rng::new(5);
    let mut items: Vec<String> = (0..20).map(|i| format!("p{i}")).collect();
    shuffle(&mut rng, &mut items);
    let mut sorted = items.clone();
    sorted.sort();
    let mut expected: Vec<String> = (0..20).map(|i| format!("p{i}")).collect();
    expected.sort();
    assert_eq!(sorted, expected);
}

#[test]
fn order_sample_needs_two_notes() {
    let mut rng = Rng::new(5);
    assert!(order_sample(&mut rng, &vec!["a".to_string()], 32).is_none());
    assert!(order_sample(&mut rng, &vec!["a".to_string(), "b".to_string()], 1).is_none());
    let s = order_sample(&mut rng, &vec!["a".to_string(), "b".to_string(), "c".to_string()], 2)
        .expect("sample");
    assert_eq!(s.len(), 2);
    assert!(s.contains(&"a".to_string()) && s.contains(&"b".to_string()));
}
