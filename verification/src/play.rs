//! The play as plain values: what each screen shows, how answers change
//! the scores, and the laws that hold of every play.
use vstd::prelude::*;

use crate::info_parse::{country_name, CountryInfos, Score};
use crate::logic::{
    sub_cat_name, CatInfo, ChoicePlayUpdate, FullInfo, LogicView, MainPlayUpdate, OrderType, TxtOrImgView,
};
use crate::name_map::{count_value, lemma_count_value, lemma_entries_map, value_is, NameMap};

verus! {

broadcast use {vstd::seq_lib::group_seq_properties, vstd::seq_lib::group_filter_ensures};

/// Every card of the play is one of the countries.
pub open spec fn filter_valid(v: LogicView) -> bool {
    forall|i: int| 0 <= i < v.filter.len() ==> (#[trigger] v.filter[i]) < v.countries.len()
}

/// The country of card `i` of the play.
pub open spec fn card_country(v: LogicView, i: int) -> CountryInfos {
    v.countries[v.filter[i] as int]
}

/// The name (score key) of card `i` of the play.
pub open spec fn card_key(v: LogicView, i: int) -> Seq<char> {
    country_name(card_country(v, i))
}

/// Category `t` is a text category (the image categories come first).
pub open spec fn is_txt(v: LogicView, t: int) -> bool {
    t >= v.cat_img_len
}

/// Card `i` has content in category `t`.
pub open spec fn content_ok(v: LogicView, i: int, t: int) -> bool {
    if is_txt(v, t) {
        t - v.cat_img_len < card_country(v, i).infos@.len()
    } else {
        0 <= t < card_country(v, i).images@.len()
    }
}

/// The content of card `i` in category `t`.
pub open spec fn content_at(v: LogicView, i: int, t: int) -> TxtOrImgView {
    if is_txt(v, t) {
        TxtOrImgView::Text(card_country(v, i).infos@[t - v.cat_img_len].full@)
    } else {
        TxtOrImgView::Image(card_country(v, i).images@[t]@)
    }
}

/// Four different cards of the play, among them card `i`.
pub open spec fn guesses_valid(g: Seq<usize>, i: int, n: int) -> bool {
    &&& g.len() == 4
    &&& g.contains(i as usize)
    &&& forall|j: int| 0 <= j < 4 ==> (#[trigger] g[j]) < n
    &&& forall|j: int, k: int| 0 <= j < k < 4 ==> (#[trigger] g[j]) != (#[trigger] g[k])
}

/// A play has been prepared for the current cards and is under way.
pub open spec fn in_play(v: LogicView) -> bool {
    &&& v.filter.len() > 0
    &&& 0 <= v.current < v.filter.len()
    &&& v.results.len() == v.filter.len()
    &&& v.prev_guesses.len() == v.filter.len()
    &&& v.index_guesses.len() == v.filter.len()
    &&& forall|i: int|
        0 <= i < v.index_guesses.len() && (#[trigger] v.index_guesses[i]) is Some ==> guesses_valid(
            v.index_guesses[i]->0,
            i,
            v.filter.len() as int,
        )
}

/// The positions `0 .. n` of the countries that `keep` accepts, in order.
pub open spec fn indices_where(countries: Seq<CountryInfos>, n: int, keep: spec_fn(CountryInfos) -> bool) -> Seq<usize> {
    Seq::new(n as nat, |i: int| i as usize).filter(|i: usize| keep(countries[i as int]))
}

pub(crate) proof fn lemma_indices_step(countries: Seq<CountryInfos>, n: int, keep: spec_fn(CountryInfos) -> bool)
    requires
        0 <= n < usize::MAX,
    ensures
        indices_where(countries, n + 1, keep) == if keep(countries[n]) {
            indices_where(countries, n, keep).push(n as usize)
        } else {
            indices_where(countries, n, keep)
        },
{
    let s = Seq::new((n + 1) as nat, |i: int| i as usize);
    assert(s.drop_last() =~= Seq::new(n as nat, |i: int| i as usize));
    reveal_with_fuel(Seq::filter, 1);
}

/// The region number names a region whenever the settings look at it: when
/// it is not 0 and some country passes the membership test.
pub open spec fn region_in_range(countries: Seq<CountryInfos>, include_hard: bool, region_idx: int) -> bool {
    (region_idx != 0 && exists|i: int| 0 <= i < countries.len() && (include_hard || (#[trigger] countries[i]).un_member))
        ==> 0 < region_idx < 6
}

/// A set-up play keeps the countries that the settings accept.
pub open spec fn config_keeps(c: CountryInfos, include_hard: bool, region_idx: int) -> bool {
    (include_hard || c.un_member) && (region_idx == 0 || c.region@ == sub_cat_name(region_idx))
}

/// The total score of country `idx`.
pub open spec fn total_of(countries: Seq<CountryInfos>, scores: Map<Seq<char>, Score>, idx: usize) -> u32 {
    scores[country_name(countries[idx as int])].total_score
}

/// The countries of `s` whose total score is `t`, in their order in `s`.
pub open spec fn with_total(
    countries: Seq<CountryInfos>,
    scores: Map<Seq<char>, Score>,
    s: Seq<usize>,
    t: u32,
) -> Seq<usize> {
    s.filter(|i: usize| total_of(countries, scores, i) == t)
}

/// `res` is `from` put in order of total score, highest first when
/// `easy_first`, lowest first otherwise; countries of equal total keep their
/// order in `from`.
pub open spec fn ordered_by_total(
    countries: Seq<CountryInfos>,
    scores: Map<Seq<char>, Score>,
    easy_first: bool,
    res: Seq<usize>,
    from: Seq<usize>,
) -> bool {
    &&& res.len() == from.len()
    &&& forall|i: int, j: int|
        0 <= i < j < res.len() ==> if easy_first {
            total_of(countries, scores, #[trigger] res[i]) >= total_of(countries, scores, #[trigger] res[j])
        } else {
            total_of(countries, scores, #[trigger] res[i]) <= total_of(countries, scores, #[trigger] res[j])
        }
    &&& forall|t: u32| #[trigger] with_total(countries, scores, res, t) == with_total(countries, scores, from, t)
}

/// Every country of `order` is one of `countries` and has a score.
pub open spec fn all_scored(countries: Seq<CountryInfos>, scores: Map<Seq<char>, Score>, order: Seq<usize>) -> bool {
    forall|i: int|
        0 <= i < order.len() ==> (#[trigger] order[i]) < countries.len() && scores.contains_key(
            country_name(countries[order[i] as int]),
        )
}

/// Every country of an ordered sequence comes from the sequence it was ordered from.
pub(crate) proof fn lemma_ordered_from(
    countries: Seq<CountryInfos>,
    scores: Map<Seq<char>, Score>,
    easy_first: bool,
    res: Seq<usize>,
    from: Seq<usize>,
)
    requires
        ordered_by_total(countries, scores, easy_first, res, from),
    ensures
        forall|i: int| 0 <= i < res.len() ==> from.contains(#[trigger] res[i]),
{
    assert forall|i: int| 0 <= i < res.len() implies from.contains(#[trigger] res[i]) by {
        let t = total_of(countries, scores, res[i]);
        let q = |x: usize| total_of(countries, scores, x) == t;
        assert(with_total(countries, scores, res, t) == with_total(countries, scores, from, t));
        res.lemma_filter_contains(q, i);
        from.lemma_filter_contains_rev(q, res[i]);
    }
}

/// `res` is `from` put in the play's order: as shuffled for a random
/// order, else by total score from the shuffled sequence.
pub open spec fn arranged(
    countries: Seq<CountryInfos>,
    scores: Map<Seq<char>, Score>,
    order_type: OrderType,
    res: Seq<usize>,
    shuffled: Seq<usize>,
) -> bool {
    if order_type == OrderType::Random {
        res == shuffled
    } else {
        ordered_by_total(countries, scores, order_type == OrderType::EasyFirst, res, shuffled)
    }
}

/// The cards of a new play: some shuffling of the old cards, arranged in
/// the play's order.
pub open spec fn new_play_order(
    countries: Seq<CountryInfos>,
    scores: Map<Seq<char>, Score>,
    order_type: OrderType,
    res: Seq<usize>,
    old_filter: Seq<usize>,
) -> bool {
    exists|shuffled: Seq<usize>|
        shuffled.to_multiset() == old_filter.to_multiset() && #[trigger] arranged(countries, scores, order_type, res, shuffled)
}

/// `n` cards, none of them answered yet.
pub open spec fn fresh_results(n: nat) -> Seq<u32> {
    Seq::new(n, |i: int| 0u32)
}

/// What a flash card's answer shows for category `g` of card `i`.
pub open spec fn cat_info_matches(ci: CatInfo, v: LogicView, i: int, g: int) -> bool {
    let cat = card_country(v, i).infos@[g - v.cat_img_len];
    &&& ci.full@ == cat.full@
    &&& ci.category@ == v.categories[g]
    &&& ci.first@ == match cat.hint {
        Some(h) => h@,
        None => Seq::<char>::empty(),
    }
    &&& ci.with_hint == cat.hint is Some
}

/// Category `g` can be an answer of card `i`: a text category that the
/// country has.
pub open spec fn answer_ok(v: LogicView, i: int, g: int) -> bool {
    &&& is_txt(v, g)
    &&& g - v.cat_img_len < card_country(v, i).infos@.len()
    &&& g < v.categories.len()
}

/// The current flash card can be shown: it has a score, its shown category
/// and its three answers.
pub open spec fn stat_ok(v: LogicView) -> bool {
    &&& v.scores.contains_key(card_key(v, v.current))
    &&& content_ok(v, v.current, v.main_info_type)
    &&& forall|j: int| 0 <= j < 3 ==> answer_ok(v, v.current, #[trigger] v.main_guess_types[j] as int)
}

/// What the flash-card screen shows of the current card.
pub open spec fn stat_matches(v: LogicView, res: (MainPlayUpdate, [CatInfo; 3])) -> bool {
    let c = v.current;
    &&& res.0.info@ == content_at(v, c, v.main_info_type)
    &&& res.0.num == c as i32
    &&& res.0.out_of == v.filter.len() as i32
    &&& res.0.score == v.results[c] as i32
    &&& res.0.last_score == v.scores[card_key(v, c)].last_score as i32
    &&& res.0.seen == (v.results[c] as i32 != 0)
    &&& forall|j: int| 0 <= j < 3 ==> cat_info_matches(#[trigger] res.1@[j], v, c, v.main_guess_types[j] as int)
}

/// The state after the current flash card is answered with `result` (0:
/// no answer): a non-zero result replaces the card's earlier result in the
/// country's total, counts a play the first time the card gets one, and
/// becomes the country's last score.
pub open spec fn after_answer(v: LogicView, result: u32) -> LogicView {
    let c = v.current;
    let k = card_key(v, c);
    let r0 = v.results[c];
    if result != 0 {
        let s = v.scores[k];
        LogicView {
            scores: v.scores.insert(
                k,
                Score {
                    time_played: if r0 == 0 {
                        (s.time_played + 1) as u32
                    } else {
                        s.time_played
                    },
                    total_score: (s.total_score + result - r0) as u32,
                    last_score: result,
                },
            ),
            results: v.results.update(c, result),
            last_scores: v.last_scores.insert(k, result as usize),
            ..v
        }
    } else if r0 == 0 {
        LogicView { last_scores: v.last_scores.insert(k, 0), ..v }
    } else {
        v
    }
}

/// One card on, unless the current card is the last.
pub open spec fn step_forward(v: LogicView) -> LogicView {
    if v.current >= v.filter.len() - 1 {
        v
    } else {
        LogicView { current: v.current + 1, ..v }
    }
}

/// One card back, unless the current card is the first.
pub open spec fn step_back(v: LogicView) -> LogicView {
    if v.current > 0 {
        LogicView { current: v.current - 1, ..v }
    } else {
        v
    }
}

/// The sum of the results of the cards among the first `m` whose country is named `k`.
pub open spec fn contribution(v: LogicView, k: Seq<char>, m: int) -> int
    decreases m,
{
    if m <= 0 {
        0
    } else {
        contribution(v, k, m - 1) + if card_key(v, m - 1) == k {
            v.results[m - 1] as int
        } else {
            0
        }
    }
}

/// Every country's total score covers the results its cards have in the
/// play: the total holds at least their sum.
pub open spec fn scores_cover_results(v: LogicView) -> bool {
    forall|k: Seq<char>| #[trigger] v.scores.contains_key(k) ==> v.scores[k].total_score >= contribution(v, k, v.filter.len() as int)
}

pub(crate) proof fn lemma_contribution_bound(v: LogicView, k: Seq<char>, m: int, c: int)
    requires
        0 <= c < m <= v.results.len(),
        card_key(v, c) == k,
    ensures
        contribution(v, k, m) >= v.results[c],
    decreases m,
{
    if m - 1 > c {
        lemma_contribution_bound(v, k, m - 1, c);
    } else {
        lemma_contribution_nonneg(v, k, m - 1);
    }
}

pub(crate) proof fn lemma_contribution_nonneg(v: LogicView, k: Seq<char>, m: int)
    ensures
        contribution(v, k, m) >= 0,
    decreases m,
{
    if m > 0 {
        lemma_contribution_nonneg(v, k, m - 1);
    }
}

pub(crate) proof fn lemma_contribution_update(v: LogicView, k: Seq<char>, m: int, c: int, r: u32)
    requires
        0 <= c < v.results.len(),
        m <= v.results.len(),
    ensures
        contribution(LogicView { results: v.results.update(c, r), ..v }, k, m) == contribution(v, k, m) + if m > c
            && card_key(v, c) == k {
            r - v.results[c]
        } else {
            0
        },
    decreases m,
{
    if m > 0 {
        lemma_contribution_update(v, k, m - 1, c, r);
    }
}

pub(crate) proof fn lemma_contribution_fresh(v: LogicView, k: Seq<char>, m: int)
    requires
        m <= v.results.len(),
        forall|i: int| 0 <= i < v.results.len() ==> #[trigger] v.results[i] == 0,
    ensures
        contribution(v, k, m) == 0,
    decreases m,
{
    if m > 0 {
        lemma_contribution_fresh(v, k, m - 1);
    }
}

/// Law: a play starts with totals that cover its results, since no card has
/// a result yet.
pub proof fn lemma_fresh_play_covered(v: LogicView)
    requires
        v.results == fresh_results(v.filter.len()),
    ensures
        scores_cover_results(v),
{
    assert forall|k: Seq<char>| #[trigger] v.scores.contains_key(k) implies v.scores[k].total_score >= contribution(
        v,
        k,
        v.filter.len() as int,
    ) by {
        lemma_contribution_fresh(v, k, v.filter.len() as int);
    }
}

/// Law: while the totals cover the results, answering the current card
/// again can not take a total below zero: the total holds at least the
/// card's earlier result.
pub proof fn lemma_covered_total_holds_result(v: LogicView)
    requires
        in_play(v),
        scores_cover_results(v),
        v.scores.contains_key(card_key(v, v.current)),
    ensures
        v.scores[card_key(v, v.current)].total_score >= v.results[v.current],
{
    lemma_contribution_bound(v, card_key(v, v.current), v.filter.len() as int, v.current);
}

/// Law: answering a flash card keeps every total covering the results: the
/// total changes by exactly the change of the card's result.
pub proof fn lemma_answer_keeps_cover(v: LogicView, result: u32)
    requires
        in_play(v),
        scores_cover_results(v),
        result != 0 ==> v.scores.contains_key(card_key(v, v.current)),
        result != 0 ==> v.scores[card_key(v, v.current)].total_score + result <= u32::MAX,
    ensures
        scores_cover_results(after_answer(v, result)),
{
    let c = v.current;
    let kc = card_key(v, c);
    let w = after_answer(v, result);
    if result != 0 {
        lemma_covered_total_holds_result(v);
        assert forall|k: Seq<char>| #[trigger] w.scores.contains_key(k) implies w.scores[k].total_score >= contribution(
            w,
            k,
            w.filter.len() as int,
        ) by {
            let u = LogicView { scores: w.scores, last_scores: w.last_scores, ..v };
            assert(w == LogicView { results: v.results.update(c, result), ..u });
            lemma_contribution_update(u, k, v.filter.len() as int, c, result);
            contribution_frame(v, u, k, v.filter.len() as int);
            if k != kc {
                assert(v.scores.contains_key(k));
                assert(w.scores[k] == v.scores[k]);
            }
        }
    } else {
        assert forall|k: Seq<char>| #[trigger] w.scores.contains_key(k) implies w.scores[k].total_score >= contribution(
            w,
            k,
            w.filter.len() as int,
        ) by {
            contribution_frame(v, w, k, v.filter.len() as int);
        }
    }
}

/// Whether totals cover results does not depend on which card is current,
/// on the last scores or on the four-choice state.
pub(crate) proof fn lemma_cover_frame(v: LogicView, w: LogicView)
    requires
        v.results == w.results,
        v.filter == w.filter,
        v.countries == w.countries,
        v.scores == w.scores,
    ensures
        scores_cover_results(v) == scores_cover_results(w),
{
    assert forall|k: Seq<char>| v.scores.contains_key(k) implies contribution(v, k, v.filter.len() as int) == contribution(
        w,
        k,
        w.filter.len() as int,
    ) by {
        contribution_frame(v, w, k, v.filter.len() as int);
    }
}

pub(crate) proof fn contribution_frame(v: LogicView, w: LogicView, k: Seq<char>, m: int)
    requires
        v.results == w.results,
        v.filter == w.filter,
        v.countries == w.countries,
    ensures
        contribution(v, k, m) == contribution(w, k, m),
    decreases m,
{
    if m > 0 {
        contribution_frame(v, w, k, m - 1);
    }
}

/// Law: going back after a step forward returns to the same card.
pub proof fn lemma_back_undoes_forward(v: LogicView)
    requires
        v.filter.len() > 0,
        0 <= v.current < v.filter.len() - 1,
    ensures
        step_back(step_forward(v)) == v,
{
    assert(step_back(step_forward(v)) =~= v);
}

/// Category `choice_info_type` can be compared between card `j` and the
/// current card. For a text category the comparison reads `infos` at the
/// category number itself, not at its place among the text categories.
pub open spec fn same_info_ok(v: LogicView, j: int) -> bool {
    let t = v.choice_info_type;
    if is_txt(v, t) {
        t < card_country(v, j).infos@.len() && t < card_country(v, v.current).infos@.len()
    } else {
        0 <= t < card_country(v, j).images@.len() && t < card_country(v, v.current).images@.len()
    }
}

/// Card `j` shows the same question as the current card.
pub open spec fn same_info(v: LogicView, j: int) -> bool {
    let t = v.choice_info_type;
    if is_txt(v, t) {
        card_country(v, j).infos@[t].full@ == card_country(v, v.current).infos@[t].full@
    } else {
        card_country(v, j).images@[t]@ == card_country(v, v.current).images@[t]@
    }
}

/// The answer that card `j` gives in the four-choice game.
pub open spec fn guess_value(v: LogicView, j: int) -> TxtOrImgView {
    content_at(v, j, v.choice_guess_type)
}

/// Card `j` may be offered as a wrong choice: it asks another question, its
/// answer differs from the current card's, and it is the first card with
/// that answer among the cards asking another question.
pub open spec fn is_candidate(v: LogicView, j: int) -> bool {
    &&& 0 <= j < v.filter.len()
    &&& !same_info(v, j)
    &&& guess_value(v, j) != guess_value(v, v.current)
    &&& forall|j2: int| 0 <= j2 < j && !same_info(v, j2) ==> #[trigger] guess_value(v, j2) != guess_value(v, j)
}

/// The cards that may be offered as wrong choices, in order.
pub open spec fn candidates(v: LogicView) -> Seq<usize> {
    Seq::new(v.filter.len(), |i: int| i as usize).filter(|i: usize| is_candidate(v, i as int))
}

/// The cards among the first `m` that may be offered as wrong choices.
pub open spec fn candidates_upto(v: LogicView, m: int) -> Seq<usize> {
    Seq::new(m as nat, |i: int| i as usize).filter(|i: usize| is_candidate(v, i as int))
}

pub(crate) proof fn lemma_candidates_step(v: LogicView, m: int)
    requires
        0 <= m < usize::MAX,
    ensures
        candidates_upto(v, m + 1) == if is_candidate(v, m) {
            candidates_upto(v, m).push(m as usize)
        } else {
            candidates_upto(v, m)
        },
{
    let s = Seq::new((m + 1) as nat, |i: int| i as usize);
    assert(s.drop_last() =~= Seq::new(m as nat, |i: int| i as usize));
    reveal_with_fuel(Seq::filter, 1);
}

/// Wrong choices can be drawn for the current card: the questions and
/// answers that the draw reads exist, and there are at least three
/// candidates.
pub open spec fn guesses_possible(v: LogicView) -> bool {
    &&& forall|j: int| 0 <= j < v.filter.len() ==> #[trigger] same_info_ok(v, j)
    &&& forall|j: int| 0 <= j < v.filter.len() && !same_info(v, j) ==> #[trigger] content_ok(v, j, v.choice_guess_type)
    &&& content_ok(v, v.current, v.choice_guess_type)
    &&& candidates(v).len() >= 3
}

/// Four choices for the current card, drawn fresh: the current card and
/// three different candidates.
pub open spec fn fresh_guesses_ok(v: LogicView, g: Seq<usize>) -> bool {
    &&& guesses_valid(g, v.current, v.filter.len() as int)
    &&& forall|j: int| 0 <= j < 4 && g[j] != v.current ==> is_candidate(v, #[trigger] g[j] as int)
}

/// The number of marked choices.
pub open spec fn count_true(s: Seq<bool>) -> nat {
    s.filter(|b: bool| b).len()
}

/// The current four-choice card can be shown: its question exists, and its
/// choices exist or can be drawn.
pub open spec fn choices_ok(v: LogicView) -> bool {
    &&& content_ok(v, v.current, v.choice_info_type)
    &&& v.index_guesses[v.current] is None ==> guesses_possible(v)
    &&& v.index_guesses[v.current] matches Some(g) ==> forall|j: int|
        0 <= j < 4 ==> content_ok(v, #[trigger] g[j] as int, v.choice_guess_type)
}

/// The marks shown for the current card: those recorded, or none of four.
pub open spec fn shown_marks(v: LogicView) -> Seq<bool> {
    match v.prev_guesses[v.current] {
        Some(m) => m,
        None => seq![false, false, false, false],
    }
}

/// What the four-choice screen shows of the current card, whose choices
/// are recorded in `v`.
pub open spec fn choices_match(v: LogicView, res: ChoicePlayUpdate) -> bool {
    let c = v.current;
    let g = v.index_guesses[c]->0;
    &&& 0 <= res.correct_guess < 4
    &&& g[res.correct_guess as int] == c
    &&& res.guess_num == count_true(shown_marks(v)) as i32
    &&& res.prev_guess@ == shown_marks(v)
    &&& res.guesses@.len() == 4
    &&& forall|j: int| 0 <= j < 4 ==> (#[trigger] res.guesses@[j])@ == content_at(v, g[j] as int, v.choice_guess_type)
    &&& res.info@ == content_at(v, c, v.choice_info_type)
    &&& res.num == c as i32
    &&& res.out_of == v.filter.len() as i32
    &&& res.default_info@ == if v.choice_guess_type != v.cat_img_len && v.choice_info_type != v.cat_img_len {
        card_key(v, c)
    } else {
        Seq::<char>::empty()
    }
}

/// Law: the four choices offered for a card show four different answers,
/// one of them the card's own: the other three are different candidates,
/// and candidates have answers of their own, other than the card's.
pub proof fn lemma_choices_distinct(v: LogicView, g: Seq<usize>)
    requires
        0 <= v.current <= usize::MAX,
        fresh_guesses_ok(v, g),
    ensures
        forall|a: int, b: int|
            0 <= a < b < 4 ==> guess_value(v, #[trigger] g[a] as int) != guess_value(v, #[trigger] g[b] as int),
        exists|a: int| 0 <= a < 4 && g[a] == v.current,
{
    assert forall|a: int, b: int|
        0 <= a < b < 4 implies guess_value(v, #[trigger] g[a] as int) != guess_value(v, #[trigger] g[b] as int) by {
        let x = g[a] as int;
        let y = g[b] as int;
        assert(x != y);
        if x != v.current && y != v.current {
            assert(is_candidate(v, x));
            assert(is_candidate(v, y));
            if x < y {
                assert(guess_value(v, x) != guess_value(v, y));
            } else {
                assert(guess_value(v, y) != guess_value(v, x));
            }
        } else if x == v.current {
            assert(is_candidate(v, y));
        } else {
            assert(is_candidate(v, x));
        }
    }
    let a = choose|a: int| 0 <= a < g.len() && g[a] == v.current as usize;
    assert(g[a] == v.current);
}

/// The state after the player acted on the current four-choice card:
/// `marks` are recorded; when the answer was `found`, the country scores
/// 5 less the number of marked choices, counted as a play; a card left
/// forward without being found counts 0 for this play, unless it already
/// has a score in it.
pub open spec fn after_choice(v: LogicView, marks: Seq<bool>, found: bool, next: bool) -> LogicView {
    let c = v.current;
    let k = card_key(v, c);
    let v1 = LogicView { prev_guesses: v.prev_guesses.update(c, Some(marks)), ..v };
    if found {
        let gained = (5 - count_true(marks)) as u32;
        let s = v.scores[k];
        LogicView {
            scores: v.scores.insert(
                k,
                Score {
                    time_played: (s.time_played + 1) as u32,
                    total_score: (s.total_score + gained) as u32,
                    last_score: gained,
                },
            ),
            last_scores: v.last_scores.insert(k, gained as usize),
            ..v1
        }
    } else if !v.last_scores.contains_key(k) && next {
        LogicView { last_scores: v.last_scores.insert(k, 0), ..v1 }
    } else {
        v1
    }
}

/// The four-choice game moves forward (`next`) or back, if it can.
pub open spec fn choice_moves(v: LogicView, next: bool) -> bool {
    if next {
        v.current < v.filter.len() - 1
    } else {
        v.current > 0
    }
}

/// The state after the four-choice game moved forward or back.
pub open spec fn choice_step(v: LogicView, next: bool) -> LogicView {
    if choice_moves(v, next) {
        if next {
            LogicView { current: v.current + 1, ..v }
        } else {
            LogicView { current: v.current - 1, ..v }
        }
    } else {
        v
    }
}

/// Showing the current card of `v` led to `w`: the card's recorded choices
/// were kept, or, if it had none, freshly drawn and recorded; nothing else
/// changed.
pub open spec fn choices_recorded(v: LogicView, w: LogicView) -> bool {
    &&& w == LogicView { index_guesses: w.index_guesses, ..v }
    &&& w.index_guesses.len() == v.index_guesses.len()
    &&& forall|i: int| 0 <= i < v.index_guesses.len() && i != v.current ==> #[trigger] w.index_guesses[i] == v.index_guesses[i]
    &&& v.index_guesses[v.current] is Some ==> w.index_guesses[v.current] == v.index_guesses[v.current]
    &&& v.index_guesses[v.current] is None ==> (w.index_guesses[v.current] matches Some(g) && fresh_guesses_ok(v, g))
}

/// Law: answering in the four-choice game keeps every total covering the
/// results of the play: totals only grow, and no result changes.
pub proof fn lemma_choice_keeps_cover(v: LogicView, marks: Seq<bool>, found: bool, next: bool)
    requires
        in_play(v),
        scores_cover_results(v),
        found ==> v.scores.contains_key(card_key(v, v.current)),
        found ==> count_true(marks) <= 5,
        found ==> v.scores[card_key(v, v.current)].total_score + (5 - count_true(marks)) <= u32::MAX,
    ensures
        scores_cover_results(after_choice(v, marks, found, next)),
{
    let w = after_choice(v, marks, found, next);
    assert forall|k: Seq<char>| #[trigger] w.scores.contains_key(k) implies w.scores[k].total_score >= contribution(
        w,
        k,
        w.filter.len() as int,
    ) by {
        contribution_frame(v, w, k, v.filter.len() as int);
        if found && k == card_key(v, v.current) {
        } else {
            assert(v.scores.contains_key(k));
        }
    }
}

/// What the look-up screen says of a country's UN membership.
pub open spec fn un_status(country: CountryInfos) -> Seq<char> {
    if country.un_member {
        if country_name(country) == "Vatican City"@ {
            "Non-member but permanent observer state"@
        } else {
            "Yes"@
        }
    } else {
        "No"@
    }
}

/// The look-up screen of a country can be built: it has every category,
/// and a score in both game modes.
pub open spec fn full_info_ok(
    v: LogicView,
    country: CountryInfos,
    main_scores: Map<Seq<char>, Score>,
    choice_scores: Map<Seq<char>, Score>,
) -> bool {
    &&& country.infos@.len() > 0
    &&& v.categories.len() - v.cat_img_len <= country.infos@.len()
    &&& v.cat_img_len <= country.images@.len()
    &&& main_scores.contains_key(country_name(country))
    &&& choice_scores.contains_key(country_name(country))
}

/// The look-up screen of a country: each text category with the country's
/// text, then its UN membership; each image category with its image; its
/// last scores in both game modes, and its wiki link.
pub open spec fn full_info_matches(
    v: LogicView,
    country: CountryInfos,
    main_scores: Map<Seq<char>, Score>,
    choice_scores: Map<Seq<char>, Score>,
    res: FullInfo,
) -> bool {
    let n_txt = v.categories.len() - v.cat_img_len;
    &&& res.name@ == country_name(country)
    &&& res.text_infos@.len() == n_txt + 1
    &&& forall|j: int|
        0 <= j < n_txt ==> (#[trigger] res.text_infos@[j]).title@ == v.categories[v.cat_img_len + j]
            && res.text_infos@[j].text@ == country.infos@[j].full@
    &&& res.text_infos@[n_txt].title@ == "UN Member"@
    &&& res.text_infos@[n_txt].text@ == un_status(country)
    &&& res.image_infos@.len() == v.cat_img_len
    &&& forall|i: int|
        0 <= i < v.cat_img_len ==> (#[trigger] res.image_infos@[i]).title@ == v.categories[i]
            && res.image_infos@[i].image == country.images@[i]
    &&& res.score_free_play == main_scores[country_name(country)].last_score as i32
    &&& res.score_choice_play == choice_scores[country_name(country)].last_score as i32
    &&& res.wiki_link@ == country.wiki_link@
}

/// The nearest integer to `total / played`, halves rounded up; 0 when
/// nothing was played.
pub open spec fn average_bucket(s: Score) -> int {
    if s.time_played > 0 {
        (2 * s.total_score + s.time_played) / (2 * s.time_played as int)
    } else {
        0
    }
}

/// Card `i` is in the region: any card for the whole world (0).
pub open spec fn in_region(v: LogicView, region: int, i: usize) -> bool {
    region == 0 || card_country(v, i as int).region@ == sub_cat_name(region)
}

/// The score value that a statistic counts: the last score, or the average.
pub open spec fn stat_value(s: Score, average: bool) -> int {
    if average {
        average_bucket(s)
    } else {
        s.last_score as int
    }
}

/// Card `i` is in the region and its score value in `m` is `value`.
pub open spec fn counted(v: LogicView, region: int, m: Map<Seq<char>, Score>, average: bool, value: int) -> spec_fn(int) -> bool {
    |i: int| in_region(v, region, i as usize) && stat_value(m[card_key(v, i)], average) == value
}

/// How many of the first `upto` cards are in the region with score value `value` in `m`.
pub open spec fn region_count(
    v: LogicView,
    region: int,
    m: Map<Seq<char>, Score>,
    average: bool,
    value: int,
    upto: int,
) -> nat {
    Seq::new(upto as nat, |i: int| i).filter(counted(v, region, m, average, value)).len()
}

pub(crate) proof fn lemma_region_count_step(
    v: LogicView,
    region: int,
    m: Map<Seq<char>, Score>,
    average: bool,
    value: int,
    upto: int,
)
    requires
        0 <= upto,
    ensures
        region_count(v, region, m, average, value, upto + 1) == region_count(v, region, m, average, value, upto) + if counted(
            v,
            region,
            m,
            average,
            value,
        )(upto) {
            1int
        } else {
            0int
        },
        region_count(v, region, m, average, value, upto) <= upto,
{
    let s = Seq::new((upto + 1) as nat, |i: int| i);
    assert(s.drop_last() =~= Seq::new(upto as nat, |i: int| i));
    reveal_with_fuel(Seq::filter, 1);
    Seq::new(upto as nat, |i: int| i).lemma_filter_len(counted(v, region, m, average, value));
}

/// The score statistics of a region can be computed: every card of the
/// region has a score in both modes, with values the statistics have room for.
pub open spec fn stats_ok(
    v: LogicView,
    region: int,
    main_scores: Map<Seq<char>, Score>,
    choice_scores: Map<Seq<char>, Score>,
) -> bool {
    &&& v.filter.len() > 0 ==> 0 <= region < 6
    &&& v.filter.len() <= i32::MAX
    &&& forall|i: int|
        0 <= i < v.filter.len() && in_region(v, region, i as usize) ==> {
            &&& main_scores.contains_key(#[trigger] card_key(v, i))
            &&& choice_scores.contains_key(card_key(v, i))
            &&& main_scores[card_key(v, i)].last_score < 6
            &&& average_bucket(main_scores[card_key(v, i)]) < 6
            &&& choice_scores[card_key(v, i)].last_score < 5
            &&& average_bucket(choice_scores[card_key(v, i)]) < 5
        }
}

/// `max` is the largest of the counts.
pub open spec fn is_max_of(max: i32, a: Seq<i32>, b: Seq<i32>) -> bool {
    &&& forall|j: int| 0 <= j < a.len() ==> max >= #[trigger] a[j]
    &&& forall|j: int| 0 <= j < b.len() ==> max >= #[trigger] b[j]
    &&& (exists|j: int| 0 <= j < a.len() && max == #[trigger] a[j]) || (exists|j: int| 0 <= j < b.len() && max == #[trigger] b[j])
}

/// Law: answering a flash card twice with the same result is answering it
/// once: the second answer replaces the first in the total, counts no new
/// play, and leaves the same last scores.
pub proof fn lemma_answer_idempotent(v: LogicView, result: u32)
    requires
        in_play(v),
        result != 0 ==> v.scores.contains_key(card_key(v, v.current)),
        result != 0 ==> v.scores[card_key(v, v.current)].total_score + result >= v.results[v.current],
        result != 0 ==> v.scores[card_key(v, v.current)].total_score + result - v.results[v.current] <= u32::MAX,
        result != 0 && v.results[v.current] == 0 ==> v.scores[card_key(v, v.current)].time_played < u32::MAX,
    ensures
        after_answer(after_answer(v, result), result) == after_answer(v, result),
{
    let w = after_answer(v, result);
    if result != 0 {
        assert(w.results[v.current] == result);
        assert(card_key(w, w.current) == card_key(v, v.current));
        assert(after_answer(w, result).scores =~= w.scores);
        assert(after_answer(w, result).results =~= w.results);
        assert(after_answer(w, result).last_scores =~= w.last_scores);
    } else if v.results[v.current] == 0 {
        assert(after_answer(w, result).last_scores =~= w.last_scores);
    }
}

pub(crate) proof fn lemma_value_counts_sum(s: Seq<(String, usize)>)
    requires
        forall|i: int| 0 <= i < s.len() ==> (#[trigger] s[i]).1 < 6,
    ensures
        s.filter(value_is(0usize)).len() + s.filter(value_is(1usize)).len() + s.filter(value_is(2usize)).len()
            + s.filter(value_is(3usize)).len() + s.filter(value_is(4usize)).len() + s.filter(value_is(5usize)).len()
            == s.len(),
    decreases s.len(),
{
    reveal(Seq::filter);
    if s.len() > 0 {
        lemma_value_counts_sum(s.drop_last());
    }
}

/// Law: when every last score of the play is a score from 0 to 5, the six
/// counts of `get_play_scores` add up to the number of countries played.
pub proof fn lemma_play_scores_add_up(last_scores: NameMap<usize>)
    requires
        last_scores.wf(),
        forall|k: Seq<char>| #[trigger] last_scores@.contains_key(k) ==> last_scores@[k] < 6,
    ensures
        count_value(last_scores@, 0) + count_value(last_scores@, 1) + count_value(last_scores@, 2) + count_value(
            last_scores@,
            3,
        ) + count_value(last_scores@, 4) + count_value(last_scores@, 5) == last_scores@.dom().len(),
{
    let m = last_scores@;
    last_scores.lemma_entries();
    let entries = last_scores.entries_view();
    lemma_entries_map(entries);
    assert forall|i: int| 0 <= i < entries.len() implies (#[trigger] entries[i]).1 < 6 by {
        assert(m.contains_key(entries[i].0@));
    }
    lemma_value_counts_sum(entries);
    lemma_count_value(entries, 0);
    lemma_count_value(entries, 1);
    lemma_count_value(entries, 2);
    lemma_count_value(entries, 3);
    lemma_count_value(entries, 4);
    lemma_count_value(entries, 5);
}

/// The cards among the first `upto` that are in the region.
pub open spec fn region_cards(v: LogicView, region: int, upto: int) -> nat {
    Seq::new(upto as nat, |i: int| i).filter(|i: int| in_region(v, region, i as usize)).len()
}

pub(crate) proof fn lemma_region_cards_step(v: LogicView, region: int, upto: int)
    requires
        0 <= upto,
    ensures
        region_cards(v, region, upto + 1) == region_cards(v, region, upto) + if in_region(v, region, upto as usize) {
            1int
        } else {
            0int
        },
{
    let s = Seq::new((upto + 1) as nat, |i: int| i);
    assert(s.drop_last() =~= Seq::new(upto as nat, |i: int| i));
    reveal_with_fuel(Seq::filter, 1);
}

/// Law: when every country of the region has a last score from 0 to 5 in
/// `m`, the six last-score counts of the statistics add up to the number of
/// the region's cards; so do the six average counts, when every average is
/// below 6.
pub proof fn lemma_region_counts_add_up(v: LogicView, region: int, m: Map<Seq<char>, Score>, average: bool, upto: int)
    requires
        0 <= upto <= v.filter.len(),
        forall|i: int|
            0 <= i < v.filter.len() && in_region(v, region, i as usize) ==> 0 <= #[trigger] stat_value(
                m[card_key(v, i)],
                average,
            ) < 6,
    ensures
        region_count(v, region, m, average, 0, upto) + region_count(v, region, m, average, 1, upto) + region_count(
            v,
            region,
            m,
            average,
            2,
            upto,
        ) + region_count(v, region, m, average, 3, upto) + region_count(v, region, m, average, 4, upto)
            + region_count(v, region, m, average, 5, upto) == region_cards(v, region, upto),
    decreases upto,
{
    if upto == 0 {
        assert(Seq::new(0nat, |i: int| i) =~= Seq::<int>::empty());
        reveal_with_fuel(Seq::filter, 1);
    } else {
        lemma_region_counts_add_up(v, region, m, average, upto - 1);
        lemma_region_cards_step(v, region, upto - 1);
        lemma_region_count_step(v, region, m, average, 0, upto - 1);
        lemma_region_count_step(v, region, m, average, 1, upto - 1);
        lemma_region_count_step(v, region, m, average, 2, upto - 1);
        lemma_region_count_step(v, region, m, average, 3, upto - 1);
        lemma_region_count_step(v, region, m, average, 4, upto - 1);
        lemma_region_count_step(v, region, m, average, 5, upto - 1);
        if in_region(v, region, (upto - 1) as usize) {
            assert(0 <= stat_value(m[card_key(v, upto - 1)], average) < 6);
        }
    }
}


/// The cards of a play set up with these settings: the positions of the
/// countries that pass them, in order.
pub open spec fn config_filter(countries: Seq<CountryInfos>, include_hard: bool, region_idx: int) -> Seq<usize> {
    indices_where(countries, countries.len() as int, |c: CountryInfos| config_keeps(c, include_hard, region_idx))
}

/// Law: a play set up with these settings asks exactly the countries that
/// pass them. Without `include_hard` every card is a UN member, whatever
/// the region; for a region other than 0 every card is of that region; and
/// every country that passes both tests is a card.
pub proof fn lemma_config_picks(countries: Seq<CountryInfos>, include_hard: bool, region_idx: int)
    requires
        countries.len() <= usize::MAX,
    ensures
        forall|j: int|
            0 <= j < config_filter(countries, include_hard, region_idx).len() ==> {
                let i = #[trigger] config_filter(countries, include_hard, region_idx)[j] as int;
                &&& 0 <= i < countries.len()
                &&& !include_hard ==> countries[i].un_member
                &&& region_idx != 0 ==> countries[i].region@ == sub_cat_name(region_idx)
            },
        forall|i: usize|
            i < countries.len() && (include_hard || countries[i as int].un_member) && (region_idx == 0
                || countries[i as int].region@ == sub_cat_name(region_idx)) ==> #[trigger] config_filter(
                countries,
                include_hard,
                region_idx,
            ).contains(i),
{
    let keep = |c: CountryInfos| config_keeps(c, include_hard, region_idx);
    let s = Seq::new(countries.len(), |i: int| i as usize);
    let pred = |i: usize| keep(countries[i as int]);
    let f = config_filter(countries, include_hard, region_idx);
    assert(f == s.filter(pred));
    s.filter_lemma(pred);
    assert forall|j: int| 0 <= j < f.len() implies {
        let i = #[trigger] f[j] as int;
        &&& 0 <= i < countries.len()
        &&& !include_hard ==> countries[i].un_member
        &&& region_idx != 0 ==> countries[i].region@ == sub_cat_name(region_idx)
    } by {
        assert(pred(f[j]));
        assert(f.contains(f[j]));
        s.lemma_filter_contains_rev(pred, f[j]);
        let m = choose|m: int| 0 <= m < s.len() && s[m] == f[j];
        assert(s[m] == m as usize);
    }
    assert forall|i: usize|
        i < countries.len() && (include_hard || countries[i as int].un_member) && (region_idx == 0
            || countries[i as int].region@ == sub_cat_name(region_idx)) implies #[trigger] f.contains(i) by {
        assert(s[i as int] == i);
        assert(pred(s[i as int]));
        assert(s.filter(pred).contains(s[i as int]));
    }
}

/// Law: a found answer in the four-choice game scores 5 less the number of
/// marked choices: that is the country's new last score, what its total
/// grows by, and its value in the play's recap; the play counts once more,
/// and no other country's score changes.
pub proof fn lemma_found_scores_five_less_marks(v: LogicView, marks: Seq<bool>, next: bool)
    requires
        v.scores.contains_key(card_key(v, v.current)),
        count_true(marks) <= 5,
        v.scores[card_key(v, v.current)].time_played < u32::MAX,
        v.scores[card_key(v, v.current)].total_score + 5 - count_true(marks) <= u32::MAX,
    ensures
        after_choice(v, marks, true, next).scores.contains_key(card_key(v, v.current)),
        after_choice(v, marks, true, next).scores[card_key(v, v.current)].last_score == 5 - count_true(marks),
        after_choice(v, marks, true, next).scores[card_key(v, v.current)].total_score
            == v.scores[card_key(v, v.current)].total_score + 5 - count_true(marks),
        after_choice(v, marks, true, next).scores[card_key(v, v.current)].time_played
            == v.scores[card_key(v, v.current)].time_played + 1,
        after_choice(v, marks, true, next).last_scores.contains_key(card_key(v, v.current)),
        after_choice(v, marks, true, next).last_scores[card_key(v, v.current)] == 5 - count_true(marks),
        forall|k: Seq<char>| k != card_key(v, v.current) ==> #[trigger] after_choice(v, marks, true, next).scores.contains_key(k)
            == v.scores.contains_key(k) && after_choice(v, marks, true, next).scores[k] == v.scores[k],
{
}

/// Law: a four-choice card left without finding the answer changes no
/// score, and leaves the play's recap as it is when the country is already
/// in it.
pub proof fn lemma_not_found_scores_nothing(v: LogicView, marks: Seq<bool>, next: bool)
    ensures
        after_choice(v, marks, false, next).scores == v.scores,
        v.last_scores.contains_key(card_key(v, v.current)) ==> after_choice(v, marks, false, next).last_scores
            == v.last_scores,
{
}

/// Law: the look-up screen shows a country's last scores of both game
/// modes, so a score from 0 to 5 there is a last score of 0 to 5.
pub proof fn lemma_look_up_shows_last_scores(
    v: LogicView,
    country: CountryInfos,
    main_scores: Map<Seq<char>, Score>,
    choice_scores: Map<Seq<char>, Score>,
    res: FullInfo,
)
    requires
        full_info_matches(v, country, main_scores, choice_scores, res),
        main_scores[country_name(country)].last_score <= 5,
        choice_scores[country_name(country)].last_score <= 5,
    ensures
        res.score_free_play == main_scores[country_name(country)].last_score,
        res.score_choice_play == choice_scores[country_name(country)].last_score,
        0 <= res.score_free_play <= 5,
        0 <= res.score_choice_play <= 5,
{
}

/// Law: a flash-card answer is kept until another answer replaces it.
/// Answering with a non-zero result makes it the card's result, the
/// country's last score and its value in the play's recap; moving on from
/// that card later without a new answer (result 0) changes nothing at all.
pub proof fn lemma_answer_survives_skip(v: LogicView, result: u32)
    requires
        in_play(v),
        result != 0,
        v.scores.contains_key(card_key(v, v.current)),
    ensures
        after_answer(v, result).results[v.current] == result,
        after_answer(v, result).scores[card_key(v, v.current)].last_score == result,
        after_answer(v, result).last_scores.contains_key(card_key(v, v.current)),
        after_answer(v, result).last_scores[card_key(v, v.current)] == result,
        after_answer(after_answer(v, result), 0) == after_answer(v, result),
{
    let w = after_answer(v, result);
    assert(card_key(w, w.current) == card_key(v, v.current));
    assert(w.results[w.current] == result);
    lemma_skip_changes_nothing(w);
}

/// Law: moving on from an answered flash card without a new answer
/// (result 0) changes nothing: its result, the scores and the recap stay.
pub proof fn lemma_skip_changes_nothing(v: LogicView)
    requires
        in_play(v),
        v.results[v.current] != 0,
    ensures
        after_answer(v, 0) == v,
{
}

} // verus!
