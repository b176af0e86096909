//! Spoken-language resolution for local transcription: when to ask the model
//! for language evidence, and what the evidence decides. Scoring an
//! observation (normalising probabilities, comparing with the confidence
//! gate) happens where the probabilities are; each observation reaches this
//! state machine as its winning language and whether it passed the threshold.

use vstd::prelude::*;

use crate::strings::{str_eq, to_owned_string};

verus! {

/// Samples per second of the audio the resolver counts.
pub const SAMPLE_RATE: usize = 16000;

/// Speech before the first check when several languages are possible.
pub const FIRST_CHECK_SAMPLES: usize = 960000;

/// Speech between re-checks once a language is selected.
pub const RECHECK_SAMPLES: usize = 4800000;

/// One startup observation: its winning language and whether the winner's
/// share reached the threshold.
#[derive(Debug)]
pub struct Vote {
    pub lang: String,
    pub confident: bool,
}

/// The resolver's state between observations.
#[derive(Debug)]
pub struct LanguageState {
    pub selected: Option<String>,
    /// The selection came from the startup deadline rather than agreement.
    pub provisional: bool,
    /// A confident winner that differs from the selection, waiting for a
    /// second confirmation.
    pub conflict: Option<String>,
    pub speech_samples: usize,
    pub next_check: usize,
    /// Startup observations, in arrival order.
    pub votes: Vec<Vote>,
}

pub open spec fn opt_view(o: Option<String>) -> Option<Seq<char>> {
    match o {
        Some(s) => Some(s@),
        None => None,
    }
}

/// How many startup observations a language won.
pub open spec fn count_of(votes: Seq<Vote>, lang: Seq<char>) -> nat
    decreases votes.len(),
{
    if votes.len() == 0 {
        0
    } else {
        count_of(votes.drop_last(), lang) + if votes.last().lang@ == lang { 1nat } else { 0nat }
    }
}

/// At least two observations, every one won confidently by `winner`.
pub open spec fn agreement(votes: Seq<Vote>, winner: Seq<char>) -> bool {
    &&& votes.len() >= 2
    &&& forall|i: int| 0 <= i < votes.len() ==> #[trigger] agrees(votes[i], winner)
}

/// A list holds a string.
pub open spec fn in_list(r: Seq<String>, l: Seq<char>) -> bool {
    exists|a: int| 0 <= a < r.len() && #[trigger] r[a]@ == l
}

fn list_contains(r: &Vec<String>, l: &str) -> (b: bool)
    ensures
        b == in_list(r@, l@),
{
    let mut a: usize = 0;
    while a < r.len()
        invariant
            a <= r@.len(),
            forall|b: int| 0 <= b < a ==> #[trigger] r@[b]@ != l@,
        decreases r@.len() - a,
    {
        if str_eq(r[a].as_str(), l) {
            return true;
        }
        a = a + 1;
    }
    false
}

/// An observation won confidently by `winner`.
pub open spec fn agrees(v: Vote, winner: Seq<char>) -> bool {
    v.lang@ == winner && v.confident
}

/// A language won the most startup observations (and at least one).
pub open spec fn is_leader(votes: Seq<Vote>, lang: Seq<char>) -> bool {
    &&& count_of(votes, lang) > 0
    &&& forall|other: Seq<char>| #[trigger] count_of(votes, other) <= count_of(votes, lang)
}

/// A language has votes exactly when some observation names it.
proof fn lemma_count_positive(votes: Seq<Vote>, lang: Seq<char>)
    ensures
        count_of(votes, lang) > 0 <==> exists|i: int| 0 <= i < votes.len() && #[trigger] votes[i].lang@ == lang,
        count_of(votes, lang) <= votes.len(),
    decreases votes.len(),
{
    if votes.len() > 0 {
        let p = votes.drop_last();
        lemma_count_positive(p, lang);
        if count_of(p, lang) > 0 {
            let i = choose|i: int| 0 <= i < p.len() && #[trigger] p[i].lang@ == lang;
            assert(votes[i].lang@ == lang);
        }
        if exists|i: int| 0 <= i < votes.len() && #[trigger] votes[i].lang@ == lang {
            let i = choose|i: int| 0 <= i < votes.len() && #[trigger] votes[i].lang@ == lang;
            if i < votes.len() - 1 {
                assert(p[i].lang@ == lang);
            }
        }
    }
}

/// How many votes `lang` won.
fn count_votes(votes: &Vec<Vote>, lang: &str) -> (c: usize)
    ensures
        c == count_of(votes@, lang@),
{
    let mut c: usize = 0;
    let mut i: usize = 0;
    while i < votes.len()
        invariant
            i <= votes@.len(),
            c == count_of(votes@.subrange(0, i as int), lang@),
        decreases votes@.len() - i,
    {
        proof {
            lemma_count_positive(votes@.subrange(0, i as int), lang@);
            assert(votes@.subrange(0, i + 1).drop_last() =~= votes@.subrange(0, i as int));
        }
        if str_eq(votes[i].lang.as_str(), lang) {
            c = c + 1;
        }
        i = i + 1;
    }
    assert(votes@.subrange(0, votes@.len() as int) =~= votes@);
    c
}

fn opt_str_eq(a: &Option<String>, b: &str) -> (r: bool)
    ensures
        r == (opt_view(*a) == Some(b@)),
{
    match a {
        Some(s) => str_eq(s.as_str(), b),
        None => false,
    }
}

/// The part of the state an observation decides once a language is selected.
pub struct Pick {
    pub selected: Option<Seq<char>>,
    pub conflict: Option<Seq<char>>,
    pub provisional: bool,
}

pub open spec fn pick_of(s: LanguageState) -> Pick {
    Pick { selected: opt_view(s.selected), conflict: opt_view(s.conflict), provisional: s.provisional }
}

/// One observation after selection: a confident winner other than the
/// selection becomes a pending conflict, and replaces the selection (no
/// longer provisional) when the pending conflict is the same language;
/// anything else clears the conflict.
pub open spec fn selected_step(p: Pick, winner: Seq<char>, confident: bool) -> Pick {
    if p.selected != Some(winner) && confident {
        if p.conflict == Some(winner) {
            Pick { selected: Some(winner), conflict: None, provisional: false }
        } else {
            Pick { conflict: Some(winner), ..p }
        }
    } else {
        Pick { conflict: None, ..p }
    }
}

/// A different language takes over only when two consecutive observations
/// name it confidently: the first leaves the selection alone, the second
/// switches it (for good, no longer provisional), and an unconfident
/// observation or one for the selected language in between starts the
/// count over.
pub proof fn lemma_switch_needs_confirmation(p: Pick, b: Seq<char>, other: Seq<char>, other_confident: bool)
    requires
        p.selected is Some,
        p.selected != Some(b),
        p.conflict != Some(b),
        !other_confident || p.selected == Some(other),
    ensures
        ({
            let once = selected_step(p, b, true);
            let twice = selected_step(once, b, true);
            let broken = selected_step(selected_step(once, other, other_confident), b, true);
            &&& once.selected == p.selected
            &&& once.provisional == p.provisional
            &&& once.conflict == Some(b)
            &&& twice.selected == Some(b) && !twice.provisional && twice.conflict is None
            &&& broken.selected == p.selected && broken.conflict == Some(b)
        }),
{
}

impl LanguageState {
    /// A single allowed language is selected from the start and never
    /// re-checked; otherwise nothing is selected and the first check comes
    /// after a minute of speech.
    pub fn new(languages: &Vec<String>) -> (r: Self)
        ensures
            languages@.len() == 1 ==> opt_view(r.selected) == Some(languages@[0]@) && r.next_check == usize::MAX,
            languages@.len() != 1 ==> r.selected is None && r.next_check == FIRST_CHECK_SAMPLES,
            !r.provisional,
            r.conflict is None,
            r.speech_samples == 0,
            r.votes@.len() == 0,
    {
        if languages.len() == 1 {
            LanguageState {
                selected: Some(languages[0].clone()),
                provisional: false,
                conflict: None,
                speech_samples: 0,
                next_check: usize::MAX,
                votes: Vec::new(),
            }
        } else {
            LanguageState {
                selected: None,
                provisional: false,
                conflict: None,
                speech_samples: 0,
                next_check: FIRST_CHECK_SAMPLES,
                votes: Vec::new(),
            }
        }
    }

    /// The selected language, if any.
    pub fn selected(&self) -> (r: Option<&str>)
        ensures
            r matches Some(s) ==> opt_view(self.selected) == Some(s@),
            r is None <==> self.selected is None,
    {
        match &self.selected {
            Some(s) => Some(s.as_str()),
            None => None,
        }
    }

    /// Evidence is wanted while nothing is selected, while a conflict waits
    /// for confirmation, and once enough speech passed since the last check.
    pub fn needs_observation(&self) -> (r: bool)
        ensures
            r == (self.selected is None || self.conflict is Some || self.speech_samples >= self.next_check),
    {
        self.selected.is_none() || self.conflict.is_some() || self.speech_samples >= self.next_check
    }

    /// Counts speech, saturating.
    pub fn add_speech(&mut self, samples: usize)
        ensures
            final(self).speech_samples == if old(self).speech_samples + samples > usize::MAX {
                usize::MAX
            } else {
                (old(self).speech_samples + samples) as usize
            },
            final(self).selected == old(self).selected,
            final(self).provisional == old(self).provisional,
            final(self).conflict == old(self).conflict,
            final(self).next_check == old(self).next_check,
            final(self).votes == old(self).votes,
    {
        self.speech_samples = self.speech_samples.saturating_add(samples);
    }

    /// A startup observation (nothing selected yet): it is recorded, and a
    /// language that won every observation so far, at least two, each
    /// confidently, is selected. Otherwise returns whether the third
    /// observation has come, at which point the startup vote decides.
    pub fn observe_startup(&mut self, winner: String, confident: bool) -> (decide: bool)
        requires
            old(self).selected is None,
        ensures
            final(self).votes@.len() == old(self).votes@.len() + 1,
            forall|i: int| 0 <= i < old(self).votes@.len() ==> #[trigger] final(self).votes@[i] == old(self).votes@[i],
            final(self).votes@.last().lang@ == winner@,
            final(self).votes@.last().confident == confident,
            agreement(final(self).votes@, winner@) ==> opt_view(final(self).selected) == Some(winner@) && !decide,
            !agreement(final(self).votes@, winner@) ==> final(self).selected is None
                && decide == (final(self).votes@.len() >= 3),
            final(self).provisional == old(self).provisional,
            final(self).conflict == old(self).conflict,
            final(self).speech_samples == old(self).speech_samples,
            final(self).next_check == old(self).next_check,
    {
        let lang = to_owned_string(winner.as_str());
        self.votes.push(Vote { lang, confident });
        let n = self.votes.len();
        let mut agree = n >= 2;
        let mut i: usize = 0;
        while i < n
            invariant
                n == self.votes@.len(),
                i <= n,
                agree == (n >= 2 && forall|j: int| 0 <= j < i ==> #[trigger] agrees(self.votes@[j], winner@)),
            decreases n - i,
        {
            let ok = str_eq(self.votes[i].lang.as_str(), winner.as_str()) && self.votes[i].confident;
            proof {
                assert(ok == agrees(self.votes@[i as int], winner@));
            }
            if !ok {
                agree = false;
            }
            i = i + 1;
        }
        if agree {
            self.selected = Some(winner);
            false
        } else {
            n >= 3
        }
    }

    /// An observation once a language is selected: a confident winner other
    /// than the selection becomes a pending conflict, and replaces the
    /// selection (no longer provisional) when it is confirmed by the next
    /// observation; anything else clears the conflict. The next re-check is
    /// five minutes of speech later.
    pub fn observe_selected(&mut self, winner: String, confident: bool)
        requires
            old(self).selected is Some,
        ensures
            pick_of(*final(self)) == selected_step(pick_of(*old(self)), winner@, confident),
            final(self).next_check == if old(self).speech_samples + RECHECK_SAMPLES > usize::MAX {
                usize::MAX
            } else {
                (old(self).speech_samples + RECHECK_SAMPLES) as usize
            },
            final(self).speech_samples == old(self).speech_samples,
            final(self).votes == old(self).votes,
    {
        if !opt_str_eq(&self.selected, winner.as_str()) && confident {
            if opt_str_eq(&self.conflict, winner.as_str()) {
                self.selected = Some(winner);
                self.provisional = false;
                self.conflict = None;
            } else {
                self.conflict = Some(winner);
            }
        } else {
            self.conflict = None;
        }
        self.next_check = self.speech_samples.saturating_add(RECHECK_SAMPLES);
    }

    /// The languages that won the most startup observations, each once. The
    /// startup deadline picks among them by summed scores.
    pub fn vote_leaders(&self) -> (r: Vec<String>)
        ensures
            forall|l: Seq<char>| #[trigger] is_leader(self.votes@, l) <==> in_list(r@, l),
            forall|i: int, j: int| 0 <= i < j < r@.len() ==> r@[i]@ != r@[j]@,
    {
        let ghost vs = self.votes@;
        let n = self.votes.len();
        let mut best: usize = 0;
        let mut i: usize = 0;
        while i < n
            invariant
                n == vs.len(),
                vs == self.votes@,
                i <= n,
                forall|j: int| 0 <= j < i ==> count_of(vs, #[trigger] vs[j].lang@) <= best,
                i > 0 ==> exists|j: int| 0 <= j < i && count_of(vs, #[trigger] vs[j].lang@) == best,
                i == 0 ==> best == 0,
            decreases n - i,
        {
            let c = count_votes(&self.votes, self.votes[i].lang.as_str());
            if c > best {
                best = c;
            }
            i = i + 1;
        }
        proof {
            assert forall|l: Seq<char>| #[trigger] count_of(vs, l) <= best by {
                lemma_count_positive(vs, l);
                if count_of(vs, l) > 0 {
                    let j = choose|j: int| 0 <= j < vs.len() && #[trigger] vs[j].lang@ == l;
                    assert(count_of(vs, vs[j].lang@) <= best);
                }
            }
        }
        let mut r: Vec<String> = Vec::new();
        let mut k: usize = 0;
        while k < n
            invariant
                n == vs.len(),
                vs == self.votes@,
                k <= n,
                forall|l: Seq<char>| #[trigger] count_of(vs, l) <= best,
                n > 0 ==> exists|j: int| 0 <= j < n && count_of(vs, #[trigger] vs[j].lang@) == best,
                forall|a: int| 0 <= a < r@.len() ==> is_leader(vs, #[trigger] r@[a]@),
                forall|j: int| 0 <= j < k && is_leader(vs, #[trigger] vs[j].lang@) ==> in_list(r@, vs[j].lang@),
                forall|a: int, b: int| 0 <= a < b < r@.len() ==> r@[a]@ != r@[b]@,
            decreases n - k,
        {
            let c = count_votes(&self.votes, self.votes[k].lang.as_str());
            let ghost l = vs[k as int].lang@;
            proof {
                lemma_count_positive(vs, l);
                assert(vs[k as int] == self.votes@[k as int]);
            }
            if c == best {
                if !list_contains(&r, self.votes[k].lang.as_str()) {
                    let ghost before = r@;
                    r.push(to_owned_string(self.votes[k].lang.as_str()));
                    proof {
                        assert(r@[before.len() as int]@ == l);
                        assert(in_list(r@, l));
                        assert forall|j: int| 0 <= j < k && is_leader(vs, #[trigger] vs[j].lang@) implies in_list(
                            r@,
                            vs[j].lang@,
                        ) by {
                            let a = choose|a: int| 0 <= a < before.len() && #[trigger] before[a]@ == vs[j].lang@;
                            assert(r@[a] == before[a]);
                        }
                        assert forall|a: int| 0 <= a < r@.len() implies is_leader(vs, #[trigger] r@[a]@) by {
                            if a < before.len() {
                                assert(r@[a] == before[a]);
                            }
                        }
                    }
                }
            } else {
                proof {
                    let w = choose|w: int| 0 <= w < n && count_of(vs, #[trigger] vs[w].lang@) == best;
                    assert(count_of(vs, vs[w].lang@) > count_of(vs, l));
                    assert(!is_leader(vs, l));
                }
            }
            k = k + 1;
        }
        proof {
            assert forall|l: Seq<char>| #[trigger] is_leader(vs, l) implies in_list(r@, l) by {
                lemma_count_positive(vs, l);
                let j = choose|j: int| 0 <= j < vs.len() && #[trigger] vs[j].lang@ == l;
                assert(is_leader(vs, vs[j].lang@));
            }
            assert forall|l: Seq<char>| #[trigger] in_list(r@, l) implies is_leader(vs, l) by {
                let a = choose|a: int| 0 <= a < r@.len() && #[trigger] r@[a]@ == l;
                assert(is_leader(vs, r@[a]@));
            }
        }
        r
    }

    /// The startup deadline: with nothing selected, the chosen vote leader
    /// (or nothing, when no observation came) is selected provisionally; an
    /// existing selection is kept.
    pub fn finish_startup(&mut self, choice: Option<String>)
        requires
            choice matches Some(c) ==> is_leader(old(self).votes@, c@),
            choice is None ==> old(self).votes@.len() == 0,
        ensures
            old(self).selected is Some ==> *final(self) == *old(self),
            old(self).selected is None ==> final(self).selected == choice && final(self).provisional,
            final(self).conflict == old(self).conflict,
            final(self).speech_samples == old(self).speech_samples,
            final(self).next_check == old(self).next_check,
            final(self).votes == old(self).votes,
    {
        if self.selected.is_none() {
            self.selected = choice;
            self.provisional = true;
        }
    }
}

} // verus!
