use virtual_display_driver_cli::algebra::{merge, remove, RemoveError};
use virtual_display_driver_cli::mode::Mode;

fn modes(texts: &[&str]) -> Vec<Mode> {
    texts.iter().map(|text| Mode::parse(text).unwrap()).collect()
}

fn texts(modes: &Vec<Mode>) -> Vec<String> {
    modes.iter().map(|mode| mode.to_text()).collect()
}

#[test]
fn merge_unions_rates_of_one_resolution() {
    let merged = merge(&modes(&["1920x1080@60", "1920x1080@120"]));
    assert_eq!(texts(&merged), vec!["1920x1080@60/120"]);
}

#[test]
fn merge_keeps_first_seen_order() {
    let merged = merge(&modes(&[
        "1920x1080@60",
        "1280x720@30",
        "1920x1080@144/60",
        "800x600",
        "1280x720",
        "1280x720@60",
    ]));
    assert_eq!(texts(&merged), vec!["1920x1080@60/144", "1280x720@30/60", "800x600"]);
}

#[test]
fn merge_of_nothing_is_nothing() {
    assert_eq!(merge(&Vec::new()), Vec::new());
}

#[test]
fn merge_tells_width_from_height() {
    let merged = merge(&modes(&["1920x1080@60", "1080x1920@60", "1920x1081@60"]));
    assert_eq!(merged.len(), 3);
}

#[test]
fn merge_is_idempotent() {
    let input = modes(&["1920x1080@60", "1280x720", "1920x1080@120", "1280x720@60", "1x1@5/3"]);
    let once = merge(&input);
    let twice = merge(&once);
    assert_eq!(once, twice);
}

#[test]
fn merge_has_each_resolution_once() {
    let input = modes(&["1920x1080@60", "1280x720", "1920x1080@120", "1280x720@60", "1920x1080"]);
    let merged = merge(&input);
    for mode in &input {
        let hits = merged.iter().filter(|entry| entry.same_resolution(mode)).count();
        assert_eq!(hits, 1);
    }
    assert_eq!(merged.len(), 2);
}

#[test]
fn parsed_text_merges_to_the_same_rates() {
    let mode = Mode::parse("2560x1440@144/60/120").unwrap();
    let again = Mode::parse(&mode.to_text()).unwrap();
    let merged = merge(&vec![again]);
    assert_eq!(merged, vec![mode.clone()]);
    assert_eq!(merged[0].refresh_rates().to_vec(), vec![60, 120, 144]);
}

#[test]
fn remove_rate_leaves_the_other_rate() {
    let merged = merge(&modes(&["1920x1080@60", "1920x1080@120"]));
    let left = remove(&merged, &Mode::parse("1920x1080@60").unwrap()).unwrap();
    assert_eq!(left.len(), 1);
    assert_eq!(left[0].width(), 1920);
    assert_eq!(left[0].height(), 1080);
    assert_eq!(left[0].refresh_rates().to_vec(), vec![120]);
}

#[test]
fn remove_without_rate_removes_resolution() {
    let merged = merge(&modes(&["1920x1080@60", "1920x1080@120"]));
    let left = remove(&merged, &Mode::parse("1920x1080").unwrap()).unwrap();
    assert_eq!(left, Vec::new());
}

#[test]
fn remove_unknown_rate_fails() {
    let result = remove(&modes(&["1920x1080@60"]), &Mode::parse("1920x1080@120").unwrap());
    assert_eq!(result, Err(RemoveError::RateNotFound(vec![120])));
}

#[test]
fn remove_names_every_missing_rate() {
    let result = remove(
        &modes(&["1920x1080@60/75", "1280x720@30/144"]),
        &Mode::parse("1920x1080@144/60/30").unwrap(),
    );
    assert_eq!(result, Err(RemoveError::RateNotFound(vec![30, 144])));
}

#[test]
fn remove_unknown_resolution_fails() {
    let existing = modes(&["1920x1080@60"]);
    assert_eq!(
        remove(&existing, &Mode::parse("1280x720").unwrap()),
        Err(RemoveError::ModeNotFound)
    );
    assert_eq!(
        remove(&existing, &Mode::parse("1280x720@60").unwrap()),
        Err(RemoveError::ModeNotFound)
    );
    assert_eq!(
        remove(&Vec::new(), &Mode::parse("1920x1080").unwrap()),
        Err(RemoveError::ModeNotFound)
    );
}

#[test]
fn remove_last_rate_removes_entry() {
    let left = remove(
        &modes(&["1280x720@30", "1920x1080@60/120", "800x600"]),
        &Mode::parse("1920x1080@120/60").unwrap(),
    )
    .unwrap();
    assert_eq!(texts(&left), vec!["1280x720@30", "800x600"]);
}

#[test]
fn remove_rate_from_entry_without_rates_fails() {
    let result = remove(&modes(&["1920x1080"]), &Mode::parse("1920x1080@60").unwrap());
    assert_eq!(result, Err(RemoveError::RateNotFound(vec![60])));
}

#[test]
fn remove_keeps_other_entries_verbatim() {
    let left = remove(
        &modes(&["1280x720@30", "1920x1080@60/120", "800x600", "1280x720@60"]),
        &Mode::parse("1920x1080@60").unwrap(),
    )
    .unwrap();
    assert_eq!(texts(&left), vec!["1280x720@30", "1920x1080@120", "800x600", "1280x720@60"]);
}

#[test]
fn remove_on_unmerged_entries() {
    let existing = modes(&["1920x1080", "1920x1080@60", "1920x1080@60/120", "1280x720"]);
    let whole = remove(&existing, &Mode::parse("1920x1080").unwrap()).unwrap();
    assert_eq!(texts(&whole), vec!["1280x720"]);
    let rate = remove(&existing, &Mode::parse("1920x1080@60").unwrap()).unwrap();
    assert_eq!(texts(&rate), vec!["1920x1080@120", "1280x720"]);
    let both = remove(&existing, &Mode::parse("1920x1080@60/120").unwrap()).unwrap();
    assert_eq!(texts(&both), vec!["1280x720"]);
    let missing = remove(&existing, &Mode::parse("1920x1080@60/144").unwrap());
    assert_eq!(missing, Err(RemoveError::RateNotFound(vec![144])));
}
