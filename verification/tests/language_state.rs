use vault_write::language::{LanguageState, FIRST_CHECK_SAMPLES, RECHECK_SAMPLES, SAMPLE_RATE};

fn s(x: &str) -> String {
    x.to_string()
}

#[test]
fn one_allowed_language_is_selected_and_never_rechecked() {
    let mut r = LanguageState::new(&vec![s("en")]);
    assert_eq!(r.selected(), Some("en"));
    r.add_speech(1000 * SAMPLE_RATE);
    assert!(!r.needs_observation());
}

#[test]
fn several_languages_wait_for_evidence() {
    let r = LanguageState::new(&vec![s("en"), s("nl")]);
    assert_eq!(r.selected(), None);
    assert_eq!(r.next_check, FIRST_CHECK_SAMPLES);
    assert!(r.needs_observation());
}

#[test]
fn two_confident_agreeing_observations_select() {
    let mut r = LanguageState::new(&vec![]);
    assert!(!r.observe_startup(s("nl"), true));
    assert_eq!(r.selected(), None);
    assert!(!r.observe_startup(s("nl"), true));
    assert_eq!(r.selected(), Some("nl"));
    assert!(!r.provisional);
}

#[test]
fn an_unconfident_observation_blocks_agreement_until_the_third_vote() {
    let mut r = LanguageState::new(&vec![]);
    assert!(!r.observe_startup(s("en"), true));
    assert!(!r.observe_startup(s("nl"), true));
    assert!(r.observe_startup(s("nl"), true));
    assert_eq!(r.selected(), None);
    assert_eq!(r.vote_leaders(), vec![s("nl")]);
    r.finish_startup(Some(s("nl")));
    assert_eq!(r.selected(), Some("nl"));
    assert!(r.provisional);
}

#[test]
fn tied_votes_leave_every_leader_to_the_score_pick() {
    let mut r = LanguageState::new(&vec![]);
    r.observe_startup(s("en"), false);
    r.observe_startup(s("nl"), true);
    let mut leaders = r.vote_leaders();
    leaders.sort();
    assert_eq!(leaders, vec![s("en"), s("nl")]);
}

#[test]
fn finish_without_observations_selects_nothing() {
    let mut r = LanguageState::new(&vec![]);
    assert!(r.vote_leaders().is_empty());
    r.finish_startup(None);
    assert_eq!(r.selected(), None);
    assert!(r.provisional);
}

#[test]
fn a_conflict_needs_confirmation_and_rechecks_later() {
    let mut r = LanguageState::new(&vec![]);
    r.observe_startup(s("en"), true);
    r.observe_startup(s("en"), true);
    assert_eq!(r.selected(), Some("en"));
    assert!(!r.needs_observation());
    r.add_speech(60 * SAMPLE_RATE);
    assert!(r.needs_observation());
    r.observe_selected(s("nl"), true);
    assert_eq!(r.selected(), Some("en"));
    assert!(r.needs_observation());
    r.observe_selected(s("nl"), true);
    assert_eq!(r.selected(), Some("nl"));
    assert_eq!(r.next_check, 60 * SAMPLE_RATE + RECHECK_SAMPLES);
    r.add_speech(299 * SAMPLE_RATE);
    assert!(!r.needs_observation());
    r.add_speech(SAMPLE_RATE);
    assert!(r.needs_observation());
}

#[test]
fn an_unconfident_disagreement_clears_a_pending_conflict() {
    let mut r = LanguageState::new(&vec![s("en"), s("nl")]);
    r.observe_startup(s("en"), true);
    r.observe_startup(s("en"), true);
    r.observe_selected(s("nl"), true);
    assert_eq!(r.conflict, Some(s("nl")));
    r.observe_selected(s("nl"), false);
    assert_eq!(r.conflict, None);
    assert_eq!(r.selected(), Some("en"));
}

#[test]
fn speech_count_saturates() {
    let mut r = LanguageState::new(&vec![]);
    r.add_speech(usize::MAX);
    r.add_speech(5);
    assert_eq!(r.speech_samples, usize::MAX);
}

// Three observations won by "en" at 0.55 (under the 0.7 gate), then two
// confident "nl" observations (0.95 and 0.9).
#[test]
fn weak_consensus_selects_provisionally_and_a_switch_needs_two_confident_votes() {
    let mut r = LanguageState::new(&vec![]);
    assert!(!r.observe_startup(s("en"), false));
    assert!(!r.observe_startup(s("en"), false));
    assert!(r.observe_startup(s("en"), false));
    assert_eq!(r.vote_leaders(), vec![s("en")]);
    r.finish_startup(Some(s("en")));
    assert_eq!(r.selected(), Some("en"));
    assert!(r.provisional);
    assert!(!r.needs_observation());
    r.add_speech(60 * SAMPLE_RATE);
    assert!(r.needs_observation());
    r.observe_selected(s("nl"), true);
    assert_eq!(r.selected(), Some("en"));
    assert!(r.needs_observation());
    r.observe_selected(s("nl"), true);
    assert_eq!(r.selected(), Some("nl"));
    assert!(!r.provisional);
    r.add_speech(299 * SAMPLE_RATE);
    assert!(!r.needs_observation());
    r.add_speech(SAMPLE_RATE);
    assert!(r.needs_observation());
}
