use phire::judge::{
    autoplay_judgements, check_replay_version, count_pending, icon_index, line_note_order, replay_hit_kind, skip_judged,
    real_note_count, HitSound, JudgeInner, Judgement, NoteKind, NoteQueues, NoteStatus, ReplayPhase,
    REPLAY_VERSION,
};
use phire::input::{button_to_id, mouse_phase, KeyTally, PointerButton, TouchPhase};
use phire::health::{ComboHealConfig, FactorSlot, HealRules, HealthReaction};

#[test]
fn tally_counts_and_combos() {
    let mut t: JudgeInner<f64> = JudgeInner::new(5);
    t.commit(Judgement::Perfect, 0.01);
    t.commit(Judgement::Good, -0.05);
    t.commit(Judgement::Miss, 0.0);
    t.commit(Judgement::Perfect, 0.0);
    t.commit_diff(Judgement::Bad);
    assert_eq!(t.counts(), [2, 1, 1, 1]);
    assert_eq!(t.combo(), 0);
    assert_eq!(t.max_combo(), 2);
    assert_eq!(t.num_of_notes(), 5);
    assert_eq!(t.perfect_diffs().len(), 2);
    assert_eq!(t.good_diffs().len(), 1);
    assert_eq!(t.bad_diffs().len(), 0);
    assert!(t.is_vaild());
    t.reset();
    assert_eq!(t.counts(), [0, 0, 0, 0]);
    assert_eq!(t.max_combo(), 0);
    assert_eq!(t.num_of_notes(), 5);
}

#[test]
fn a_combo_without_offsets_is_not_valid() {
    let mut t: JudgeInner<f64> = JudgeInner::new(2);
    t.commit_diff(Judgement::Perfect);
    assert!(!t.is_vaild());
}

#[test]
fn commit_all_counts_pending_real_notes_as_perfect() {
    let fake = [false, true, false, false, false];
    let status = [NoteStatus::NotJudged, NoteStatus::NotJudged, NoteStatus::Judged, NoteStatus::PreJudge, NoteStatus::Hold];
    assert_eq!(count_pending(&fake, &status), 2);
    let mut t: JudgeInner<f64> = JudgeInner::new(4);
    t.commit_diff(Judgement::Good);
    t.commit_all(&fake, &status);
    assert_eq!(t.counts(), [2, 1, 0, 0]);
    assert_eq!(t.combo(), 3);
}

#[test]
fn icons_by_score() {
    assert_eq!(icon_index(1_000_000, true, true), 0);
    assert_eq!(icon_index(999_999, true, true), 1);
    assert_eq!(icon_index(960_000, false, true), 2);
    assert_eq!(icon_index(920_000, false, true), 3);
    assert_eq!(icon_index(880_000, false, true), 4);
    assert_eq!(icon_index(820_000, false, true), 5);
    assert_eq!(icon_index(700_000, false, true), 6);
    assert_eq!(icon_index(699_999, false, true), 7);
    assert_eq!(icon_index(1_000_000, true, false), 7);
}

#[test]
fn replay_sounds() {
    assert_eq!(replay_hit_kind(false, Err(true), true, &HitSound::Silent).as_deref(), Some("click"));
    assert_eq!(replay_hit_kind(false, Ok(Judgement::Perfect), false, &HitSound::Drag).as_deref(), Some("drag"));
    assert_eq!(replay_hit_kind(false, Ok(Judgement::Good), false, &HitSound::Custom("pop".into())).as_deref(), Some("pop"));
    assert_eq!(replay_hit_kind(false, Ok(Judgement::Bad), false, &HitSound::Click), None);
    assert_eq!(replay_hit_kind(false, Ok(Judgement::Perfect), true, &HitSound::Click), None);
    assert_eq!(replay_hit_kind(true, Ok(Judgement::Perfect), false, &HitSound::Click), None);
    assert_eq!(replay_hit_kind(false, Ok(Judgement::Perfect), false, &HitSound::Silent), None);
    assert!(matches!(HitSound::default_from_kind(&NoteKind::Hold), HitSound::Click));
    assert!(matches!(HitSound::default_from_kind(&NoteKind::Flick), HitSound::Flick));
}

#[test]
fn replay_versions_and_phases() {
    assert!(check_replay_version(REPLAY_VERSION).is_ok());
    assert_eq!(check_replay_version(2).unwrap_err().version, 2);
    assert_eq!(ReplayPhase::from(TouchPhase::Moved), ReplayPhase::Moved);
    assert_eq!(TouchPhase::from(ReplayPhase::Cancelled), TouchPhase::Cancelled);
    assert_eq!(TouchPhase::from(ReplayPhase::from(TouchPhase::Started)), TouchPhase::Started);
}

#[test]
fn note_order_skips_fake_notes_and_sorts_by_time() {
    let fake = [false, true, false, false];
    let keys = [30, 5, 10, 20];
    assert_eq!(line_note_order(&fake, &keys), vec![2, 3, 0]);
    assert_eq!(line_note_order(&[], &[]), Vec::<u32>::new());
}

#[test]
fn judged_prefix_is_skipped() {
    let order = [2u32, 0, 1];
    let judged = [false, true, true];
    assert_eq!(skip_judged(&order, 0, &judged), 1);
    assert_eq!(skip_judged(&order, 2, &judged), 3);
    assert_eq!(skip_judged(&order, 1, &judged), 1);
}

#[test]
fn combo_heal_restores_every_n_heals() {
    let c = ComboHealConfig::default();
    assert_eq!(c.combo_for_heal, 10);
    let mut n = 0;
    let mut heals = 0;
    for _ in 0..25 {
        let (next, heal) = c.tick(n);
        n = next;
        if heal {
            heals += 1;
        }
    }
    assert_eq!((n, heals), (5, 2));
    assert_eq!(ComboHealConfig { combo_for_heal: 1 }.tick(0), (0, true));
}

#[test]
fn health_reactions() {
    let rules = HealRules { perfect_heal: true, good_heal: false, bad_heal: false };
    assert_eq!(rules.reaction(Judgement::Perfect), HealthReaction::Heal(FactorSlot::Perfect));
    assert_eq!(rules.reaction(Judgement::Good), HealthReaction::Damage(FactorSlot::Good));
    assert_eq!(rules.reaction(Judgement::Miss), HealthReaction::Damage(FactorSlot::Bad));
    let all = HealRules { perfect_heal: true, good_heal: true, bad_heal: true };
    assert_eq!(all.reaction(Judgement::Bad), HealthReaction::Heal(FactorSlot::Bad));
}

#[test]
fn autoplay_kinds() {
    assert_eq!(autoplay_judgements(true, true), (Judgement::Bad, Judgement::Good));
    assert_eq!(autoplay_judgements(false, true), (Judgement::Good, Judgement::Good));
    assert_eq!(autoplay_judgements(false, false), (Judgement::Perfect, Judgement::Perfect));
}

#[test]
fn pointer_ids_and_key_counts() {
    assert_eq!(button_to_id(PointerButton::Left), u64::MAX);
    assert_eq!(button_to_id(PointerButton::Unknown), u64::MAX - 3);
    let mut k = KeyTally::new();
    k.key_down(false);
    k.key_down(true);
    k.key_down(false);
    k.key_up();
    assert_eq!(k, KeyTally { key_delta: 1, keys_down: 2 });
}

#[test]
fn held_keys_saturate() {
    assert_eq!(KeyTally::held_after(3, -1), 2);
    assert_eq!(KeyTally::held_after(1, -5), 0);
    assert_eq!(KeyTally::held_after(u32::MAX - 1, 5), u32::MAX);
    assert_eq!(KeyTally::held_after(0, i32::MIN), 0);
    assert_eq!(KeyTally::held_after(7, 0), 7);
    assert_eq!(mouse_phase(true, true, false), Some(TouchPhase::Started));
    assert_eq!(mouse_phase(false, true, false), Some(TouchPhase::Moved));
    assert_eq!(mouse_phase(false, false, true), Some(TouchPhase::Ended));
    assert_eq!(mouse_phase(false, false, false), None);
}

#[test]
fn note_queues_follow_judging() {
    let fake = vec![vec![false, true, false], vec![false]];
    let keys = vec![vec![20, 0, 10], vec![5]];
    assert_eq!(real_note_count(&fake), 3);
    let mut q = NoteQueues::new(&fake, &keys);
    assert_eq!(q.lines[0], (vec![2, 0], 0));
    assert_eq!(q.lines[1], (vec![0], 0));
    q.advance(0, &[false, false, true]);
    assert_eq!(q.lines[0].1, 1);
    q.advance(0, &[true, false, true]);
    assert_eq!(q.lines[0].1, 2);
    q.reset();
    assert_eq!(q.lines[0], (vec![2, 0], 0));
}

#[test]
fn each_sound_plays_at_most_five_times_a_frame() {
    let mut b = phire::judge::HitsoundBudget::new();
    let granted: Vec<bool> = (0..7).map(|_| b.check("click")).collect();
    assert_eq!(granted, vec![true, true, true, true, true, false, false]);
    assert!(b.check("drag"));
    b.clear();
    assert!(b.check("click"));
}

#[test]
fn which_sound_a_note_plays() {
    assert_eq!(phire::judge::sound_to_play(&HitSound::Click, false, false).as_deref(), Some("click"));
    assert_eq!(phire::judge::sound_to_play(&HitSound::Click, true, false), None);
    assert_eq!(phire::judge::sound_to_play(&HitSound::Silent, false, true), None);
    assert_eq!(phire::judge::sound_to_play(&HitSound::Custom("ding".into()), true, true).as_deref(), Some("ding"));
    assert_eq!(phire::judge::sound_to_play(&HitSound::Custom("ding".into()), false, false), None);
}

#[test]
fn notes_of_equal_time_keep_index_order() {
    let fake = [false, false, false, false];
    let keys = [5, 1, 5, 1];
    assert_eq!(line_note_order(&fake, &keys), vec![1, 3, 0, 2]);
}
