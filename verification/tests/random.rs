use wikitui::random::{pick_first_good, QualityClass, RandomGood, GOOD_BATCH};

fn titles(n: usize) -> Vec<String> {
    (0..n).map(|i| format!("Article {i}")).collect()
}

#[test]
fn batch_of_ten_resolves_to_the_first_ga_or_better_title() {
    let batch = titles(10);
    let mut assessments: Vec<(String, QualityClass)> = Vec::new();
    assessments.push((batch[3].clone(), QualityClass::Ga));
    assessments.push((batch[7].clone(), QualityClass::Fa));
    assessments.push((batch[1].clone(), QualityClass::B));

    assert_eq!(
        pick_first_good(&batch, &assessments),
        RandomGood::Found(batch[3].clone()),
        "the earlier-drawn GA+ title wins over the later FA"
    );
}

#[test]
fn batch_with_no_good_article_falls_back_to_the_first_title() {
    let batch = titles(10);
    let mut assessments: Vec<(String, QualityClass)> = Vec::new();
    assessments.push((batch[2].clone(), QualityClass::Start));
    assessments.push((batch[5].clone(), QualityClass::Stub));

    assert_eq!(
        pick_first_good(&batch, &assessments),
        RandomGood::Fallback(batch[0].clone())
    );
}

#[test]
fn empty_batch_is_empty() {
    assert_eq!(pick_first_good(&Vec::new(), &Vec::new()), RandomGood::Empty);
}

#[test]
fn a_title_absent_from_the_assessments_map_does_not_count_as_good() {
    let batch = titles(3);
    let assessments: Vec<(String, QualityClass)> = Vec::new();
    assert_eq!(
        pick_first_good(&batch, &assessments),
        RandomGood::Fallback(batch[0].clone())
    );
}

#[test]
fn only_the_top_classes_count_as_good() {
    let good = [QualityClass::Fa, QualityClass::Fl, QualityClass::A, QualityClass::Ga];
    let below = [QualityClass::B, QualityClass::C, QualityClass::Start, QualityClass::Stub];
    assert!(good.iter().all(|c| c.is_good_or_better()));
    assert!(below.iter().all(|c| !c.is_good_or_better()));
    assert_eq!(GOOD_BATCH, 10);
}
