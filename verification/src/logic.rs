use vstd::prelude::*;

use crate::choice_play::ChoicePlay;
use crate::info_parse::{
    country_name, countries_named, get_score_key, AllInfos, CountryInfos, ImageLink, ImageLinkView,
    Score,
};
use crate::name_map::{count_value, entries_map, keys_distinct, lemma_count_value, lemma_entries_map, value_is, NameMap};
use crate::play::{
    after_answer,
    after_choice,
    all_scored,
    answer_ok,
    arranged,
    candidates,
    candidates_upto,
    card_country,
    card_key,
    choice_moves,
    choice_step,
    choices_match,
    choices_ok,
    choices_recorded,
    config_filter,
    config_keeps,
    content_at,
    content_ok,
    count_true,
    counted,
    filter_valid,
    fresh_guesses_ok,
    fresh_results,
    lemma_answer_keeps_cover,
    lemma_answer_survives_skip,
    lemma_config_picks,
    lemma_found_scores_five_less_marks,
    lemma_not_found_scores_nothing,
    lemma_skip_changes_nothing,
    lemma_choice_keeps_cover,
    lemma_cover_frame,
    lemma_fresh_play_covered,
    scores_cover_results,
    full_info_matches,
    full_info_ok,
    guess_value,
    guesses_possible,
    guesses_valid,
    in_play,
    in_region,
    indices_where,
    is_candidate,
    is_max_of,
    is_txt,
    lemma_candidates_step,
    lemma_indices_step,
    lemma_ordered_from,
    lemma_region_count_step,
    new_play_order,
    ordered_by_total,
    region_count,
    region_in_range,
    same_info,
    same_info_ok,
    shown_marks,
    stat_matches,
    stat_ok,
    stats_ok,
    step_back,
    step_forward,
    total_of,
    with_total,
};
use crate::random::{choose_multiple_indices, shuffle_indices, thread_rng};
use crate::sorting::{key_class, key_equiv, lemma_filter_map_values, stable_sort_by_key, SortKey};
use crate::text::{contains_text, lowercase, text_contains, to_lowercase};

verus! {

broadcast use {vstd::seq_lib::group_seq_properties, vstd::seq_lib::group_filter_ensures};

/// The order in which the cards of a play come.
#[derive(Debug, Clone, Copy, PartialEq, Eq, Structural)]
pub enum OrderType {
    /// Best known countries (highest total score) first.
    EasyFirst,
    /// Shuffled.
    Random,
    /// Least known countries (lowest total score) first.
    HardFirst,
}

/// The order that a setting number selects: 0 easy first, 1 random, 2 hard first.
pub open spec fn order_of(value: int) -> OrderType {
    if value == 0 {
        OrderType::EasyFirst
    } else if value == 1 {
        OrderType::Random
    } else {
        OrderType::HardFirst
    }
}

impl OrderType {
    /// The order that a setting number selects; other numbers are not settings.
    pub fn from(value: i32) -> (res: OrderType)
        requires
            0 <= value <= 2,
        ensures
            res == order_of(value as int),
    {
        if value == 0 {
            OrderType::EasyFirst
        } else if value == 1 {
            OrderType::Random
        } else {
            OrderType::HardFirst
        }
    }
}

/// The settings of a play, as chosen on the settings screen.
pub struct PlaySelectParams {
    /// Flash cards (`true`) or four choices (`false`).
    pub play_type: bool,
    /// 0 for the whole world, else the region in `sub_cat_names`.
    pub region_idx: i32,
    /// Also countries that are not UN members.
    pub include_hard: bool,
    /// See `OrderType::from`.
    pub order: i32,
}

/// The score file that a play writes: the user's folder and the game mode.
pub struct ScoreFile {
    pub user: String,
    /// The flash-card file (`score_main.json`) or the four-choice one (`score_choice.json`).
    pub main_play: bool,
}

/// The file name of the flash-card scores.
pub fn main_score_name() -> (res: String)
    ensures
        res@ == "score_main.json"@,
{
    String::from_str("score_main.json")
}

/// The file name of the four-choice scores.
pub fn choice_score_name() -> (res: String)
    ensures
        res@ == "score_choice.json"@,
{
    String::from_str("score_choice.json")
}

/// The name of the region of a region number: 0 is the whole world.
pub open spec fn sub_cat_name(idx: int) -> Seq<char> {
    if idx == 0 {
        "World"@
    } else if idx == 1 {
        "Africa"@
    } else if idx == 2 {
        "Americas"@
    } else if idx == 3 {
        "Asia"@
    } else if idx == 4 {
        "Europe"@
    } else {
        "Oceania"@
    }
}

/// The name of a region.
pub fn sub_cat_name_of(idx: usize) -> (res: String)
    requires
        idx < 6,
    ensures
        res@ == sub_cat_name(idx as int),
{
    if idx == 0 {
        String::from_str("World")
    } else if idx == 1 {
        String::from_str("Africa")
    } else if idx == 2 {
        String::from_str("Americas")
    } else if idx == 3 {
        String::from_str("Asia")
    } else if idx == 4 {
        String::from_str("Europe")
    } else {
        String::from_str("Oceania")
    }
}

/// The names of the six regions, the whole world first.
pub fn sub_cat_names() -> (res: Vec<String>)
    ensures
        res@.len() == 6,
        forall|i: int| 0 <= i < 6 ==> (#[trigger] res@[i])@ == sub_cat_name(i),
{
    let mut res: Vec<String> = Vec::new();
    let mut i: usize = 0;
    while i < 6
        invariant
            i <= 6,
            res@.len() == i,
            forall|j: int| 0 <= j < i ==> (#[trigger] res@[j])@ == sub_cat_name(j),
        decreases 6 - i,
    {
        res.push(sub_cat_name_of(i));
        i = i + 1;
    }
    res
}

/// The state of the flash-card game.
pub struct FlashcardPlay {
    /// The three categories asked for, as category numbers.
    pub guess_types: [usize; 3],
    /// The category shown.
    pub info_type: usize,
}

/// A piece of content: a text or an image.
pub enum TxtOrImg {
    Text(String),
    Image(ImageLink),
}

/// What a piece of content shows.
pub enum TxtOrImgView {
    Text(Seq<char>),
    Image(ImageLinkView),
}

impl View for TxtOrImg {
    type V = TxtOrImgView;

    open spec fn view(&self) -> TxtOrImgView {
        match self {
            TxtOrImg::Text(s) => TxtOrImgView::Text(s@),
            TxtOrImg::Image(i) => TxtOrImgView::Image(i@),
        }
    }
}

/// What the flash-card screen shows of the current card.
pub struct MainPlayUpdate {
    pub info: TxtOrImg,
    pub num: i32,
    pub out_of: i32,
    pub score: i32,
    pub last_score: i32,
    pub seen: bool,
}

/// One of the three answers of a flash card.
pub struct CatInfo {
    pub full: String,
    pub category: String,
    pub first: String,
    pub with_hint: bool,
}

/// What the four-choice screen shows of the current card.
pub struct ChoicePlayUpdate {
    pub correct_guess: i32,
    pub guess_num: i32,
    pub guesses: Vec<TxtOrImg>,
    pub info: TxtOrImg,
    pub num: i32,
    pub out_of: i32,
    pub prev_guess: Vec<bool>,
    pub default_info: String,
}

/// A text with its title, on the look-up screen.
pub struct TextWithTitle {
    pub title: String,
    pub text: String,
}

/// An image with its title, on the look-up screen.
pub struct ImageWithTitle {
    pub title: String,
    pub image: ImageLink,
}

/// Everything the look-up screen shows of a country.
pub struct FullInfo {
    pub name: String,
    pub text_infos: Vec<TextWithTitle>,
    pub image_infos: Vec<ImageWithTitle>,
    pub score_free_play: i32,
    pub score_choice_play: i32,
    pub wiki_link: String,
}

/// Score statistics of a region: how many countries have each average and
/// each last score, in both game modes, and the largest of these counts.
pub struct ScoreStats {
    pub main_avg: [i32; 6],
    pub main_last: [i32; 6],
    pub choice_avg: [i32; 5],
    pub choice_last: [i32; 5],
    pub main_max: i32,
    pub choice_max: i32,
}

/// The state of the quiz, as plain values.
#[verifier::ext_equal]
pub struct LogicView {
    pub order_type: OrderType,
    pub current: int,
    pub results: Seq<u32>,
    pub scores: Map<Seq<char>, Score>,
    pub last_scores: Map<Seq<char>, usize>,
    pub score_file: Option<(Seq<char>, bool)>,
    pub user: Seq<char>,
    pub filter: Seq<usize>,
    pub countries: Seq<CountryInfos>,
    pub cat_img_len: int,
    pub categories: Seq<Seq<char>>,
    pub names_lower: Seq<Seq<char>>,
    pub main_info_type: int,
    pub main_guess_types: Seq<usize>,
    pub choice_info_type: int,
    pub choice_guess_type: int,
    pub guess_type_is_txt: bool,
    pub prev_guesses: Seq<Option<Seq<bool>>>,
    pub index_guesses: Seq<Option<Seq<usize>>>,
}

/// The game logic of the quiz: the countries, the cards of the current play
/// (`filter_countries`, positions into `all_countries`), the scores and the
/// state of both games.
pub struct AppLogic {
    order_type: OrderType,
    current: usize,
    results: Vec<u32>,
    scores: NameMap<Score>,
    last_scores: NameMap<usize>,
    score_path: Option<ScoreFile>,
    score_folder: String,
    filter_countries: Vec<usize>,
    all_countries: Vec<CountryInfos>,
    cat_img_len: usize,
    categories_names: Vec<String>,
    country_names_sorted: Vec<String>,
    flashcard_play: FlashcardPlay,
    choice_play: ChoicePlay,
}

pub open spec fn string_views(s: Seq<String>) -> Seq<Seq<char>> {
    s.map_values(|x: String| x@)
}

pub open spec fn guesses_view(g: Option<[usize; 4]>) -> Option<Seq<usize>> {
    match g {
        Some(a) => Some(a@),
        None => None,
    }
}

pub open spec fn marks_view(g: Option<Vec<bool>>) -> Option<Seq<bool>> {
    match g {
        Some(a) => Some(a@),
        None => None,
    }
}

impl View for AppLogic {
    type V = LogicView;

    closed spec fn view(&self) -> LogicView {
        LogicView {
            order_type: self.order_type,
            current: self.current as int,
            results: self.results@,
            scores: self.scores@,
            last_scores: self.last_scores@,
            score_file: match self.score_path {
                Some(f) => Some((f.user@, f.main_play)),
                None => None,
            },
            user: self.score_folder@,
            filter: self.filter_countries@,
            countries: self.all_countries@,
            cat_img_len: self.cat_img_len as int,
            categories: string_views(self.categories_names@),
            names_lower: string_views(self.country_names_sorted@),
            main_info_type: self.flashcard_play.info_type as int,
            main_guess_types: self.flashcard_play.guess_types@,
            choice_info_type: self.choice_play.info_type as int,
            choice_guess_type: self.choice_play.guess_type as int,
            guess_type_is_txt: self.choice_play.guess_type_is_txt,
            prev_guesses: self.choice_play.prev_guesses@.map_values(|g: Option<Vec<bool>>| marks_view(g)),
            index_guesses: self.choice_play.index_guesses@.map_values(|g: Option<[usize; 4]>| guesses_view(g)),
        }
    }
}

spec fn sort_key(easy_first: bool, total: u32) -> u32 {
    if easy_first {
        (u32::MAX - total) as u32
    } else {
        total
    }
}

spec fn pair_index(p: (u32, usize)) -> usize {
    p.1
}

/// Puts `order` in order of total score (highest first when `easy_first`),
/// keeping the order of countries with equal totals.
pub fn order_by_total(
    order: &Vec<usize>,
    countries: &Vec<CountryInfos>,
    scores: &NameMap<Score>,
    easy_first: bool,
) -> (res: Vec<usize>)
    requires
        scores.wf(),
        countries_named(countries@),
        all_scored(countries@, scores@, order@),
    ensures
        ordered_by_total(countries@, scores@, easy_first, res@, order@),
{
    let mut pairs: Vec<(u32, usize)> = Vec::new();
    let mut i: usize = 0;
    while i < order.len()
        invariant
            scores.wf(),
            countries_named(countries@),
            all_scored(countries@, scores@, order@),
            i <= order@.len(),
            pairs@.len() == i,
            forall|m: int| 0 <= m < i ==> (#[trigger] pairs@[m]).1 == order@[m],
            forall|m: int| 0 <= m < i ==> (#[trigger] pairs@[m]).0 == sort_key(easy_first, total_of(countries@, scores@, pairs@[m].1)),
        decreases order@.len() - i,
    {
        let idx = order[i];
        let total = match scores.get(get_score_key(&countries[idx])) {
            Some(s) => s.total_score,
            None => 0,
        };
        let key = if easy_first { u32::MAX - total } else { total };
        pairs.push((key, idx));
        i = i + 1;
    }
    let ghost ps_in = pairs@;
    let sorted = stable_sort_by_key(pairs);
    let ghost ps_out = sorted@;
    proof {
        broadcast use Seq::to_multiset_ensures;

        assert forall|j: int| 0 <= j < ps_out.len() implies (#[trigger] ps_out[j]).0 == sort_key(easy_first, total_of(countries@, scores@, ps_out[j].1)) by {
            assert(ps_out.contains(ps_out[j]));
            assert(ps_in.to_multiset().count(ps_out[j]) > 0);
            assert(ps_in.contains(ps_out[j]));
        }
    }
    let mut res: Vec<usize> = Vec::new();
    let mut k: usize = 0;
    while k < sorted.len()
        invariant
            k <= sorted@.len(),
            sorted@ == ps_out,
            res@.len() == k,
            forall|m: int| 0 <= m < k ==> (#[trigger] res@[m]) == ps_out[m].1,
        decreases sorted@.len() - k,
    {
        res.push(sorted[k].1);
        k = k + 1;
    }
    proof {
        let f = |p: (u32, usize)| pair_index(p);
        assert(ps_in.map_values(f) =~= order@);
        assert(ps_out.map_values(f) =~= res@);
        assert forall|a: int, b: int| 0 <= a < b < res@.len() implies if easy_first {
            total_of(countries@, scores@, #[trigger] res@[a]) >= total_of(countries@, scores@, #[trigger] res@[b])
        } else {
            total_of(countries@, scores@, #[trigger] res@[a]) <= total_of(countries@, scores@, #[trigger] res@[b])
        } by {
            assert(!ps_out[b].0.key_lt(ps_out[a].0));
        }
        assert forall|t: u32| #[trigger] with_total(countries@, scores@, res@, t) == with_total(countries@, scores@, order@, t) by {
            let k = sort_key(easy_first, t);
            let p = |pp: (u32, usize)| key_equiv(pp.0, k);
            let q = |x: usize| total_of(countries@, scores@, x) == t;
            assert forall|j: int| 0 <= j < ps_in.len() implies p(#[trigger] ps_in[j]) == q(f(ps_in[j])) by {
            }
            assert forall|j: int| 0 <= j < ps_out.len() implies p(#[trigger] ps_out[j]) == q(f(ps_out[j])) by {
            }
            lemma_filter_map_values(ps_in, p, q, f);
            lemma_filter_map_values(ps_out, p, q, f);
            assert(key_class(ps_out, k) == key_class(ps_in, k));
        }
    }
    res
}

fn copy_marks(marks: &Vec<bool>) -> (res: Vec<bool>)
    ensures
        res@ == marks@,
{
    let mut res: Vec<bool> = Vec::new();
    let mut i: usize = 0;
    while i < marks.len()
        invariant
            i <= marks@.len(),
            res@ == marks@.subrange(0, i as int),
        decreases marks@.len() - i,
    {
        res.push(marks[i]);
        i = i + 1;
        assert(res@ =~= marks@.subrange(0, i as int));
    }
    assert(marks@.subrange(0, marks@.len() as int) =~= marks@);
    res
}

/// The number of marked choices.
pub fn count_marked(marks: &Vec<bool>) -> (res: usize)
    ensures
        res == count_true(marks@),
{
    let mut count: usize = 0;
    let mut i: usize = 0;
    while i < marks.len()
        invariant
            i <= marks@.len(),
            count == marks@.take(i as int).filter(|b: bool| b).len(),
            count <= i,
        decreases marks@.len() - i,
    {
        proof {
            assert(marks@.take(i + 1) =~= marks@.take(i as int).push(marks@[i as int]));
            marks@.take(i as int).lemma_filter_push(marks@[i as int], |b: bool| b);
        }
        if marks[i] {
            count = count + 1;
        }
        i = i + 1;
    }
    assert(marks@.take(marks@.len() as int) =~= marks@);
    count
}

/// The largest element of a non-empty sequence of counts.
fn max_count(a: &Vec<i32>) -> (res: i32)
    requires
        a@.len() > 0,
    ensures
        forall|j: int| 0 <= j < a@.len() ==> res >= #[trigger] a@[j],
        exists|j: int| 0 <= j < a@.len() && res == #[trigger] a@[j],
{
    let mut best: usize = 0;
    let mut k: usize = 1;
    while k < a.len()
        invariant
            1 <= k <= a@.len(),
            best < k,
            forall|m: int| 0 <= m < k ==> a@[best as int] >= #[trigger] a@[m],
        decreases a@.len() - k,
    {
        if a[k] > a[best] {
            best = k;
        }
        k = k + 1;
    }
    a[best]
}

impl AppLogic {
    /// The logic's own consistency: the score maps are well formed, every
    /// country has a name, every card is a country.
    pub closed spec fn wf(&self) -> bool {
        &&& self.scores.wf()
        &&& self.last_scores.wf()
        &&& countries_named(self.all_countries@)
        &&& filter_valid(self@)
        &&& self.choice_play.prev_guesses@.len() == self.choice_play.index_guesses@.len()
        &&& self.cat_img_len <= self.categories_names@.len()
        &&& self.country_names_sorted@.len() == self.all_countries@.len()
    }

    /// The logic for these countries and categories, before any play. The
    /// active user is the first of `users` (the existing users' folders in
    /// order), or "User 1" when there is none.
    pub fn new(all_infos: AllInfos, users: Vec<String>) -> (res: Self)
        requires
            countries_named(all_infos.all_countries@),
        ensures
            res.wf(),
            res@.order_type == OrderType::Random,
            res@.current == 0,
            res@.results.len() == 0,
            res@.scores == Map::<Seq<char>, Score>::empty(),
            res@.last_scores == Map::<Seq<char>, usize>::empty(),
            res@.score_file is None,
            res@.user == if users@.len() == 0 { "User 1"@ } else { users@[0]@ },
            res@.filter.len() == 0,
            res@.countries == all_infos.all_countries@,
            res@.cat_img_len == all_infos.image_names@.len(),
            res@.categories == string_views(all_infos.image_names@) + string_views(all_infos.info_names@),
            res@.names_lower.len() == all_infos.all_countries@.len(),
            forall|i: int| 0 <= i < res@.names_lower.len() ==> #[trigger] res@.names_lower[i] == lowercase(
                country_name(all_infos.all_countries@[i]),
            ),
            res@.main_info_type == 0,
            res@.main_guess_types == seq![0usize, 0usize, 0usize],
            res@.choice_info_type == 0,
            res@.choice_guess_type == 0,
            !res@.guess_type_is_txt,
            res@.prev_guesses.len() == 0,
            res@.index_guesses.len() == 0,
    {
        let cat_img_len = all_infos.image_names.len();
        let ghost expected = string_views(all_infos.image_names@) + string_views(all_infos.info_names@);
        let mut all_cat_names: Vec<String> = Vec::new();
        let mut i: usize = 0;
        while i < all_infos.image_names.len()
            invariant
                i <= all_infos.image_names@.len(),
                expected == string_views(all_infos.image_names@) + string_views(all_infos.info_names@),
                all_cat_names@.len() == i,
                forall|m: int| 0 <= m < i ==> (#[trigger] all_cat_names@[m])@ == expected[m],
            decreases all_infos.image_names@.len() - i,
        {
            all_cat_names.push(all_infos.image_names[i].clone());
            i = i + 1;
        }
        let mut j: usize = 0;
        while j < all_infos.info_names.len()
            invariant
                j <= all_infos.info_names@.len(),
                expected == string_views(all_infos.image_names@) + string_views(all_infos.info_names@),
                all_cat_names@.len() == all_infos.image_names@.len() + j,
                forall|m: int| 0 <= m < all_cat_names@.len() ==> (#[trigger] all_cat_names@[m])@ == expected[m],
            decreases all_infos.info_names@.len() - j,
        {
            all_cat_names.push(all_infos.info_names[j].clone());
            j = j + 1;
        }
        assert(string_views(all_cat_names@) =~= expected);
        let AllInfos { all_countries, info_names: _, image_names: _ } = all_infos;
        let mut names: Vec<String> = Vec::new();
        let mut k: usize = 0;
        while k < all_countries.len()
            invariant
                k <= all_countries@.len(),
                countries_named(all_countries@),
                names@.len() == k,
                forall|m: int| 0 <= m < k ==> (#[trigger] names@[m])@ == lowercase(country_name(all_countries@[m])),
            decreases all_countries@.len() - k,
        {
            names.push(to_lowercase(get_score_key(&all_countries[k])));
            k = k + 1;
        }
        let score_folder = if users.len() == 0 {
            String::from_str("User 1")
        } else {
            users[0].clone()
        };
        let res = AppLogic {
            order_type: OrderType::Random,
            current: 0,
            results: Vec::new(),
            scores: NameMap::new(),
            last_scores: NameMap::new(),
            score_path: None,
            score_folder,
            filter_countries: Vec::new(),
            all_countries,
            cat_img_len,
            categories_names: all_cat_names,
            country_names_sorted: names,
            flashcard_play: FlashcardPlay { guess_types: [0, 0, 0], info_type: 0 },
            choice_play: ChoicePlay::new(),
        };
        proof {
            assert(res@.names_lower.len() == names@.len());
            assert(res.flashcard_play.guess_types@ =~= seq![0usize, 0usize, 0usize]);
        }
        res
    }

    /// The names of all categories: the image categories, then the text ones.
    pub fn get_all_categories_name(&self) -> (res: &Vec<String>)
        ensures
            string_views(res@) == self@.categories,
    {
        &self.categories_names
    }

    /// The names of the text categories.
    pub fn get_txt_categories_name(&self) -> (res: Vec<String>)
        requires
            self.wf(),
        ensures
            string_views(res@) == self@.categories.subrange(self@.cat_img_len, self@.categories.len() as int),
    {
        let mut res: Vec<String> = Vec::new();
        let mut i: usize = self.cat_img_len;
        while i < self.categories_names.len()
            invariant
                self.cat_img_len <= i <= self.categories_names@.len(),
                res@.len() == i - self.cat_img_len,
                forall|m: int| 0 <= m < res@.len() ==> (#[trigger] res@[m])@ == self.categories_names@[self.cat_img_len + m]@,
            decreases self.categories_names@.len() - i,
        {
            res.push(self.categories_names[i].clone());
            i = i + 1;
        }
        assert(string_views(res@) =~= self@.categories.subrange(self@.cat_img_len, self@.categories.len() as int));
        res
    }

    /// The name of the active user.
    pub fn get_active_user(&self) -> (res: String)
        ensures
            res@ == self@.user,
    {
        self.score_folder.clone()
    }

    /// The current card is the last one.
    pub fn is_at_end(&self) -> (res: bool)
        requires
            self@.filter.len() > 0,
        ensures
            res == (self@.current >= self@.filter.len() - 1),
    {
        self.current >= self.filter_countries.len() - 1
    }

    /// Sets up a play with these settings: which score file it writes, which
    /// countries it asks (UN members unless `include_hard`, of the chosen
    /// region), and in which order.
    #[verifier::loop_isolation(false)]
    pub fn set_config(&mut self, conf: PlaySelectParams)
        requires
            old(self).wf(),
            0 <= conf.order <= 2,
            region_in_range(old(self)@.countries, conf.include_hard, conf.region_idx as int),
        ensures
            final(self).wf(),
            final(self)@ == (LogicView {
                score_file: Some((old(self)@.user, conf.play_type)),
                filter: indices_where(
                    old(self)@.countries,
                    old(self)@.countries.len() as int,
                    |c: CountryInfos| config_keeps(c, conf.include_hard, conf.region_idx as int),
                ),
                order_type: order_of(conf.order as int),
                ..old(self)@
            }),
            final(self)@.filter == config_filter(old(self)@.countries, conf.include_hard, conf.region_idx as int),
            forall|j: int|
                0 <= j < final(self)@.filter.len() ==> (!conf.include_hard ==> final(self)@.countries[#[trigger] final(self)@.filter[j] as int].un_member) && (conf.region_idx != 0 ==> final(self)@.countries[final(self)@.filter[j] as int].region@ == sub_cat_name(conf.region_idx as int)),
            forall|i: usize|
                i < old(self)@.countries.len() && (conf.include_hard || old(self)@.countries[i as int].un_member) && (
                conf.region_idx == 0 || old(self)@.countries[i as int].region@ == sub_cat_name(conf.region_idx as int))
                    ==> #[trigger] final(self)@.filter.contains(i),
    {
        self.score_path = Some(ScoreFile { user: self.score_folder.clone(), main_play: conf.play_type });
        let ghost countries = self.all_countries@;
        let ghost keep = |c: CountryInfos| config_keeps(c, conf.include_hard, conf.region_idx as int);
        let mut filtered: Vec<usize> = Vec::new();
        let mut i: usize = 0;
        while i < self.all_countries.len()
            invariant
                countries == self.all_countries@,
                keep == (|c: CountryInfos| config_keeps(c, conf.include_hard, conf.region_idx as int)),
                region_in_range(countries, conf.include_hard, conf.region_idx as int),
                i <= countries.len(),
                filtered@ == indices_where(countries, i as int, keep),
            decreases countries.len() - i,
        {
            let country = &self.all_countries[i];
            assert(country == countries[i as int]);
            let kept = (conf.include_hard || country.un_member) && (conf.region_idx == 0
                || country.region == sub_cat_name_of(conf.region_idx as usize));
            proof {
                lemma_indices_step(countries, i as int, keep);
            }
            if kept {
                filtered.push(i);
            }
            i = i + 1;
        }
        proof {
            assert forall|j: int| 0 <= j < filtered@.len() implies (#[trigger] filtered@[j]) < countries.len() by {
                let s = Seq::new(countries.len(), |i: int| i as usize);
                s.lemma_filter_pred(|i: usize| keep(countries[i as int]), j);
                assert(s.filter(|i: usize| keep(countries[i as int])).contains(filtered@[j]));
                s.lemma_filter_contains_rev(|i: usize| keep(countries[i as int]), filtered@[j]);
            }
        }
        proof {
            assert(filtered@ == config_filter(countries, conf.include_hard, conf.region_idx as int));
            lemma_config_picks(countries, conf.include_hard, conf.region_idx as int);
        }
        self.filter_countries = filtered;
        self.order_type = OrderType::from(conf.order);
    }

    /// Shows the countries in the score screen: all of them, or only UN members.
    #[verifier::loop_isolation(false)]
    pub fn score_filter_changed(&mut self, all: bool)
        requires
            old(self).wf(),
        ensures
            final(self).wf(),
            final(self)@ == (LogicView {
                filter: indices_where(
                    old(self)@.countries,
                    old(self)@.countries.len() as int,
                    |c: CountryInfos| c.un_member || all,
                ),
                ..old(self)@
            }),
    {
        let ghost countries = self.all_countries@;
        let ghost keep = |c: CountryInfos| c.un_member || all;
        let mut filtered: Vec<usize> = Vec::new();
        let mut i: usize = 0;
        while i < self.all_countries.len()
            invariant
                countries == self.all_countries@,
                keep == (|c: CountryInfos| c.un_member || all),
                i <= countries.len(),
                filtered@ == indices_where(countries, i as int, keep),
            decreases countries.len() - i,
        {
            proof {
                lemma_indices_step(countries, i as int, keep);
            }
            if self.all_countries[i].un_member || all {
                filtered.push(i);
            }
            i = i + 1;
        }
        proof {
            assert forall|j: int| 0 <= j < filtered@.len() implies (#[trigger] filtered@[j]) < countries.len() by {
                let s = Seq::new(countries.len(), |i: int| i as usize);
                s.lemma_filter_pred(|i: usize| keep(countries[i as int]), j);
                assert(s.filter(|i: usize| keep(countries[i as int])).contains(filtered@[j]));
                s.lemma_filter_contains_rev(|i: usize| keep(countries[i as int]), filtered@[j]);
            }
        }
        self.filter_countries = filtered;
    }

    /// Makes `name` the active user.
    pub fn score_user_selected(&mut self, name: String)
        requires
            old(self).wf(),
        ensures
            final(self).wf(),
            final(self)@ == (LogicView { user: name@, ..old(self)@ }),
    {
        self.score_folder = name;
    }

    /// Switches to user `name`, or, when `delete`, to the first of the users
    /// left after `name`'s folder was deleted (`users_left`, the remaining
    /// folders in order), or to "User 1" if none is left.
    pub fn score_user_change(&mut self, name: String, delete: bool, users_left: &Vec<String>)
        requires
            old(self).wf(),
        ensures
            final(self).wf(),
            final(self)@ == (LogicView {
                user: if !delete {
                    name@
                } else {
                    let others = string_views(users_left@).filter(|u: Seq<char>| u != name@);
                    if others.len() == 0 {
                        "User 1"@
                    } else {
                        others[0]
                    }
                },
                ..old(self)@
            }),
    {
        let ghost views = string_views(users_left@);
        let ghost pred = |u: Seq<char>| u != name@;
        if !delete {
            self.score_folder = name;
            return;
        }
        let mut i: usize = 0;
        while i < users_left.len() && users_left[i] == name
            invariant
                i <= users_left@.len(),
                views == string_views(users_left@),
                pred == (|u: Seq<char>| u != name@),
                views.subrange(0, i as int).filter(pred).len() == 0,
            decreases users_left@.len() - i,
        {
            proof {
                views.subrange(0, i as int).lemma_filter_push(views[i as int], pred);
                assert(views.subrange(0, i + 1) =~= views.subrange(0, i as int).push(views[i as int]));
            }
            i = i + 1;
        }
        proof {
            if i < users_left@.len() {
                views.subrange(0, i as int).lemma_filter_push(views[i as int], pred);
                assert(views.subrange(0, i + 1) =~= views.subrange(0, i as int).push(views[i as int]));
                assert(views =~= views.subrange(0, i + 1) + views.subrange(i + 1, views.len() as int));
                Seq::filter_distributes_over_add(views.subrange(0, i + 1), views.subrange(i + 1, views.len() as int), pred);
                assert(views.subrange(0, i + 1).filter(pred) =~= seq![views[i as int]]);
            } else {
                assert(views.subrange(0, i as int) =~= views);
            }
        }
        if i < users_left.len() {
            self.score_folder = users_left[i].clone();
        } else {
            self.score_folder = String::from_str("User 1");
        }
    }

    /// Renames the active user `name1` to `name2`; the folder itself is
    /// renamed by the caller.
    pub fn score_rename_user(&mut self, name1: String, name2: String)
        requires
            old(self).wf(),
        ensures
            final(self).wf(),
            final(self)@ == (LogicView { user: name2@, ..old(self)@ }),
    {
        self.score_folder = name2;
    }

    /// What saving the scores writes: the score file of the play, if one
    /// was set up, and the scores.
    pub fn save_scores(&self) -> (res: (Option<&ScoreFile>, &NameMap<Score>))
        requires
            self.wf(),
        ensures
            res.1.wf(),
            res.1@ == self@.scores,
            match res.0 {
                Some(f) => self@.score_file == Some((f.user@, f.main_play)),
                None => self@.score_file is None,
            },
    {
        (self.score_path.as_ref(), &self.scores)
    }

    /// Starts a play over the current cards with the scores read from the
    /// play's score file: the cards are shuffled, then put in order of total
    /// score unless the order is random; no card is answered yet.
    #[verifier::loop_isolation(false)]
    pub fn randomize_order(&mut self, scores: NameMap<Score>)
        requires
            old(self).wf(),
            scores.wf(),
            old(self)@.order_type != OrderType::Random ==> all_scored(old(self)@.countries, scores@, old(self)@.filter),
        ensures
            final(self).wf(),
            new_play_order(old(self)@.countries, scores@, old(self)@.order_type, final(self)@.filter, old(self)@.filter),
            final(self)@.filter.len() == old(self)@.filter.len(),
            scores_cover_results(final(self)@),
            final(self)@ == (LogicView {
                current: 0,
                results: fresh_results(old(self)@.filter.len()),
                scores: scores@,
                last_scores: Map::empty(),
                filter: final(self)@.filter,
                prev_guesses: Seq::new(old(self)@.filter.len(), |i: int| None),
                index_guesses: Seq::new(old(self)@.filter.len(), |i: int| None),
                ..old(self)@
            }),
    {
        broadcast use Seq::to_multiset_ensures;

        let ghost old_filter = self.filter_countries@;
        let mut rng = thread_rng();
        shuffle_indices(&mut self.filter_countries, &mut rng);
        let ghost shuffled = self.filter_countries@;
        proof {
            assert forall|i: int| 0 <= i < shuffled.len() implies old_filter.contains(#[trigger] shuffled[i]) by {
                assert(shuffled.contains(shuffled[i]));
                assert(old_filter.to_multiset().count(shuffled[i]) > 0);
            }
        }
        match self.order_type {
            OrderType::EasyFirst => {
                let ordered = order_by_total(&self.filter_countries, &self.all_countries, &scores, true);
                proof {
                    lemma_ordered_from(self.all_countries@, scores@, true, ordered@, shuffled);
                }
                self.filter_countries = ordered;
            },
            OrderType::Random => {},
            OrderType::HardFirst => {
                let ordered = order_by_total(&self.filter_countries, &self.all_countries, &scores, false);
                proof {
                    lemma_ordered_from(self.all_countries@, scores@, false, ordered@, shuffled);
                }
                self.filter_countries = ordered;
            },
        }
        let ghost scores_view = scores@;
        let n = self.filter_countries.len();
        proof {
            assert(shuffled.len() == old_filter.len()) by {
                assert(shuffled.to_multiset().len() == old_filter.to_multiset().len());
            }
        }
        let mut results: Vec<u32> = Vec::new();
        let mut prev: Vec<Option<Vec<bool>>> = Vec::new();
        let mut index: Vec<Option<[usize; 4]>> = Vec::new();
        let mut i: usize = 0;
        while i < n
            invariant
                i <= n,
                results@ == fresh_results(i as nat),
                prev@.len() == i,
                index@.len() == i,
                forall|j: int| 0 <= j < i ==> (#[trigger] prev@[j]) is None,
                forall|j: int| 0 <= j < i ==> (#[trigger] index@[j]) is None,
            decreases n - i,
        {
            results.push(0u32);
            prev.push(None);
            index.push(None);
            i = i + 1;
            assert(results@ =~= fresh_results(i as nat));
        }
        self.current = 0;
        self.results = results;
        self.scores = scores;
        self.choice_play.prev_guesses = prev;
        self.choice_play.index_guesses = index;
        self.last_scores = NameMap::new();
        proof {
            assert(arranged(self@.countries, scores_view, self@.order_type, self@.filter, shuffled));
            lemma_fresh_play_covered(self@);
            assert(self@.prev_guesses =~= Seq::new(old_filter.len(), |i: int| None));
            assert(self@.index_guesses =~= Seq::new(old_filter.len(), |i: int| None));
        }
    }

    /// Prepares a flash-card play: `info_type` is the category shown,
    /// `guess_types` the three text categories asked for (counted among the
    /// text categories), then starts the play (see `randomize_order`).
    pub fn prepare_main_play(&mut self, info_type: usize, guess_types: [usize; 3], scores: NameMap<Score>)
        requires
            old(self).wf(),
            scores.wf(),
            forall|i: int| 0 <= i < 3 ==> #[trigger] guess_types@[i] + old(self)@.cat_img_len <= usize::MAX,
            old(self)@.order_type != OrderType::Random ==> all_scored(old(self)@.countries, scores@, old(self)@.filter),
        ensures
            final(self).wf(),
            final(self)@.main_info_type == info_type,
            final(self)@.main_guess_types == guess_types@.map_values(|g: usize| (g + old(self)@.cat_img_len) as usize),
            new_play_order(old(self)@.countries, scores@, old(self)@.order_type, final(self)@.filter, old(self)@.filter),
            final(self)@.filter.len() == old(self)@.filter.len(),
            scores_cover_results(final(self)@),
            final(self)@ == (LogicView {
                current: 0,
                results: fresh_results(old(self)@.filter.len()),
                scores: scores@,
                last_scores: Map::empty(),
                filter: final(self)@.filter,
                prev_guesses: Seq::new(old(self)@.filter.len(), |i: int| None),
                index_guesses: Seq::new(old(self)@.filter.len(), |i: int| None),
                main_info_type: info_type as int,
                main_guess_types: final(self)@.main_guess_types,
                ..old(self)@
            }),
    {
        let g0 = self.txt_only_to_global_type(guess_types[0]);
        let g1 = self.txt_only_to_global_type(guess_types[1]);
        let g2 = self.txt_only_to_global_type(guess_types[2]);
        self.flashcard_play.guess_types = [g0, g1, g2];
        self.flashcard_play.info_type = info_type;
        proof {
            assert(self.flashcard_play.guess_types@ =~= guess_types@.map_values(|g: usize| (g + old(self)@.cat_img_len) as usize));
        }
        self.randomize_order(scores)
    }

    /// Prepares a four-choice play: `info_type` is the category asked,
    /// `guess_type` the category of the answers; then starts the play (see
    /// `randomize_order`).
    pub fn prepare_choice_play(&mut self, info_type: usize, guess_type: usize, scores: NameMap<Score>)
        requires
            old(self).wf(),
            scores.wf(),
            old(self)@.order_type != OrderType::Random ==> all_scored(old(self)@.countries, scores@, old(self)@.filter),
        ensures
            final(self).wf(),
            new_play_order(old(self)@.countries, scores@, old(self)@.order_type, final(self)@.filter, old(self)@.filter),
            final(self)@.filter.len() == old(self)@.filter.len(),
            scores_cover_results(final(self)@),
            final(self)@ == (LogicView {
                current: 0,
                results: fresh_results(old(self)@.filter.len()),
                scores: scores@,
                last_scores: Map::empty(),
                filter: final(self)@.filter,
                prev_guesses: Seq::new(old(self)@.filter.len(), |i: int| None),
                index_guesses: Seq::new(old(self)@.filter.len(), |i: int| None),
                choice_info_type: info_type as int,
                choice_guess_type: guess_type as int,
                ..old(self)@
            }),
    {
        self.choice_play.guess_type = guess_type;
        self.choice_play.info_type = info_type;
        self.randomize_order(scores)
    }

    /// The content of card `i` in category `t`: a text of the country or one
    /// of its images.
    fn load_content(&self, i: usize, t: usize) -> (res: TxtOrImg)
        requires
            self.wf(),
            i < self@.filter.len(),
            content_ok(self@, i as int, t as int),
        ensures
            res@ == content_at(self@, i as int, t as int),
    {
        let country = &self.all_countries[self.filter_countries[i]];
        if self.is_info_txt(t) {
            let idx = self.to_txt_idx(t);
            TxtOrImg::Text(country.infos[idx].full.clone())
        } else {
            TxtOrImg::Image(country.images[t].duplicate())
        }
    }

    fn cat_info(&self, country: &CountryInfos, g: usize) -> (res: CatInfo)
        requires
            self.wf(),
            g >= self@.cat_img_len,
            g - self@.cat_img_len < country.infos@.len(),
            g < self@.categories.len(),
        ensures
            res.full@ == country.infos@[g - self@.cat_img_len].full@,
            res.category@ == self@.categories[g as int],
            res.first@ == match country.infos@[g - self@.cat_img_len].hint {
                Some(h) => h@,
                None => Seq::<char>::empty(),
            },
            res.with_hint == country.infos@[g - self@.cat_img_len].hint is Some,
    {
        let cat = &country.infos[self.to_txt_idx(g)];
        CatInfo {
            full: cat.full.clone(),
            category: self.categories_names[g].clone(),
            first: match &cat.hint {
                Some(h) => h.clone(),
                None => String::new(),
            },
            with_hint: cat.hint.is_some(),
        }
    }

    /// What the flash-card screen shows of the current card: the shown
    /// category, the card's position, its result in this play and the
    /// country's last score, and the three answers with their hints.
    pub fn get_stat(&self) -> (res: (MainPlayUpdate, [CatInfo; 3]))
        requires
            self.wf(),
            in_play(self@),
            stat_ok(self@),
        ensures
            stat_matches(self@, res),
    {
        let country = &self.all_countries[self.filter_countries[self.current]];
        let score = self.results[self.current] as i32;
        let last_score = match self.scores.get(get_score_key(country)) {
            Some(s) => s.last_score as i32,
            None => 0,
        };
        let info = self.load_content(self.current, self.flashcard_play.info_type);
        let update = MainPlayUpdate {
            info,
            num: self.current as i32,
            out_of: self.filter_countries.len() as i32,
            score,
            last_score,
            seen: score != 0,
        };
        proof {
            assert(answer_ok(self@, self@.current, self@.main_guess_types[0] as int));
            assert(answer_ok(self@, self@.current, self@.main_guess_types[1] as int));
            assert(answer_ok(self@, self@.current, self@.main_guess_types[2] as int));
        }
        let a0 = self.cat_info(country, self.flashcard_play.guess_types[0]);
        let a1 = self.cat_info(country, self.flashcard_play.guess_types[1]);
        let a2 = self.cat_info(country, self.flashcard_play.guess_types[2]);
        let infos = [a0, a1, a2];
        proof {
            assert(infos@[0] == a0);
            assert(infos@[1] == a1);
            assert(infos@[2] == a2);
        }
        (update, infos)
    }

    /// Answers the current flash card with `result` (0: not answered) and
    /// goes to the next card, if there is one: then the screen of that card
    /// is returned. The flag tells whether the scores changed and should be
    /// saved (a non-zero result).
    pub fn next(&mut self, result: u32) -> (res: (Option<(MainPlayUpdate, [CatInfo; 3])>, bool))
        requires
            old(self).wf(),
            in_play(old(self)@),
            result != 0 ==> old(self)@.scores.contains_key(card_key(old(self)@, old(self)@.current)),
            result != 0 ==> old(self)@.scores[card_key(old(self)@, old(self)@.current)].total_score + result <= u32::MAX,
            result != 0 ==> old(self)@.scores[card_key(old(self)@, old(self)@.current)].total_score + result
                >= old(self)@.results[old(self)@.current],
            result != 0 && old(self)@.results[old(self)@.current] == 0 ==> old(self)@.scores[card_key(
                old(self)@,
                old(self)@.current,
            )].time_played < u32::MAX,
            old(self)@.current < old(self)@.filter.len() - 1 ==> stat_ok(step_forward(after_answer(old(self)@, result))),
        ensures
            final(self).wf(),
            final(self)@ == step_forward(after_answer(old(self)@, result)),
            in_play(final(self)@),
            scores_cover_results(old(self)@) ==> scores_cover_results(final(self)@),
            res.1 == (result != 0),
            result != 0 ==> final(self)@.results[old(self)@.current] == result,
            result != 0 ==> final(self)@.scores[card_key(old(self)@, old(self)@.current)].last_score == result,
            result != 0 ==> final(self)@.last_scores.contains_key(card_key(old(self)@, old(self)@.current)),
            result != 0 ==> final(self)@.last_scores[card_key(old(self)@, old(self)@.current)] == result,
            result == 0 && old(self)@.results[old(self)@.current] != 0 ==> final(self)@.results == old(self)@.results
                && final(self)@.scores == old(self)@.scores && final(self)@.last_scores == old(self)@.last_scores,
            res.0 is Some <==> old(self)@.current < old(self)@.filter.len() - 1,
            res.0 matches Some(st) ==> stat_matches(final(self)@, st),
    {
        let ghost v0 = self@;
        let c = self.current;
        let idx = self.filter_countries[c];
        let key = get_score_key(&self.all_countries[idx]).clone();
        let r0 = self.results[c];
        let mut save = false;
        if result != 0 {
            if let Some(s) = self.scores.get(&key) {
                let time_played = if r0 == 0 { s.time_played + 1 } else { s.time_played };
                let total_score = (s.total_score + result) - r0;
                self.scores.insert(key.clone(), Score { time_played, total_score, last_score: result });
            }
            self.results.set(c, result);
            save = true;
            self.last_scores.insert(key, result as usize);
        } else if r0 == 0 {
            self.last_scores.insert(key, 0);
        }
        proof {
            assert(self@ =~= after_answer(v0, result));
            if result != 0 {
                lemma_answer_survives_skip(v0, result);
            } else if v0.results[v0.current] != 0 {
                lemma_skip_changes_nothing(v0);
            }
            if scores_cover_results(v0) {
                lemma_answer_keeps_cover(v0, result);
                lemma_cover_frame(after_answer(v0, result), step_forward(after_answer(v0, result)));
            }
        }
        assert(self.filter_countries@.len() == v0.filter.len());
        assert(self.current < self.filter_countries@.len());
        if self.current < self.filter_countries.len() - 1 {
            self.current = self.current + 1;
            proof {
                assert(self@ =~= step_forward(after_answer(v0, result)));
            }
            let stat = self.get_stat();
            (Some(stat), save)
        } else {
            (None, save)
        }
    }

    /// Goes back to the previous card, if there is one, and returns its screen.
    pub fn prev(&mut self) -> (res: Option<(MainPlayUpdate, [CatInfo; 3])>)
        requires
            old(self).wf(),
            in_play(old(self)@),
            old(self)@.current > 0 ==> stat_ok(step_back(old(self)@)),
        ensures
            final(self).wf(),
            final(self)@ == step_back(old(self)@),
            in_play(final(self)@),
            scores_cover_results(old(self)@) ==> scores_cover_results(final(self)@),
            res is Some <==> old(self)@.current > 0,
            res matches Some(st) ==> stat_matches(final(self)@, st),
    {
        let ghost v0 = self@;
        proof {
            lemma_cover_frame(v0, step_back(v0));
        }
        if self.current > 0 {
            self.current = self.current - 1;
            proof {
                assert(self@ =~= step_back(v0));
            }
            return Some(self.get_stat());
        }
        None
    }

    /// The scores of the play just played: for each score 0 to 5 (0 to 4 in
    /// the four-choice game), how many countries got it last; and the
    /// largest of the six counts.
    pub fn get_play_scores(&self, choice_play: bool) -> (res: (Vec<i32>, i32))
        requires
            self.wf(),
            forall|k: Seq<char>| #[trigger] self@.last_scores.contains_key(k) ==> self@.last_scores[k] < 6,
            self@.last_scores.dom().len() <= i32::MAX,
        ensures
            res.0@.len() == if choice_play { 5int } else { 6int },
            forall|j: int| 0 <= j < res.0@.len() ==> #[trigger] res.0@[j] == count_value(self@.last_scores, j as usize),
            forall|j: int| 0 <= j < 6 ==> res.1 >= #[trigger] count_value(self@.last_scores, j as usize),
            exists|j: int| 0 <= j < 6 && res.1 == #[trigger] count_value(self@.last_scores, j as usize),
    {
        let entries = self.last_scores.entries();
        proof {
            self.last_scores.lemma_entries();
            lemma_entries_map(entries@);
            assert forall|m: int| 0 <= m < entries@.len() implies (#[trigger] entries@[m]).1 < 6 by {
                assert(entries_map(entries@).contains_key(entries@[m].0@));
                assert(entries_map(entries@)[entries@[m].0@] == entries@[m].1);
            }
        }
        let mut counts: Vec<i32> = Vec::new();
        let mut j: usize = 0;
        while j < 6
            invariant
                j <= 6,
                counts@.len() == j,
                forall|m: int| 0 <= m < j ==> #[trigger] counts@[m] == 0,
            decreases 6 - j,
        {
            counts.push(0);
            j = j + 1;
        }
        let mut i: usize = 0;
        while i < entries.len()
            invariant
                i <= entries@.len(),
                entries@.len() <= i32::MAX,
                keys_distinct(entries@),
                forall|m: int| 0 <= m < entries@.len() ==> (#[trigger] entries@[m]).1 < 6,
                counts@.len() == 6,
                forall|v: int| 0 <= v < 6 ==> #[trigger] counts@[v] == entries@.take(i as int).filter(
                    value_is(v as usize),
                ).len(),
            decreases entries@.len() - i,
        {
            let value = entries[i].1;
            proof {
                assert forall|v: int| 0 <= v < 6 implies #[trigger] entries@.take(i as int).filter(
                    value_is(v as usize),
                ).len() <= i by {
                    entries@.take(i as int).lemma_filter_len(value_is(v as usize));
                }
                assert forall|v: int| 0 <= v < 6 implies #[trigger] entries@.take(i + 1).filter(
                    value_is(v as usize),
                ) == if value == v as usize {
                    entries@.take(i as int).filter(value_is(v as usize)).push(entries@[i as int])
                } else {
                    entries@.take(i as int).filter(value_is(v as usize))
                } by {
                    assert(entries@.take(i + 1) =~= entries@.take(i as int).push(entries@[i as int]));
                    entries@.take(i as int).lemma_filter_push(entries@[i as int], value_is(v as usize));
                }
            }
            counts.set(value, counts[value] + 1);
            i = i + 1;
        }
        proof {
            assert(entries@.take(entries@.len() as int) =~= entries@);
            assert forall|v: int| 0 <= v < 6 implies #[trigger] counts@[v] == count_value(self@.last_scores, v as usize) by {
                lemma_count_value(entries@, v as usize);
            }
        }
        let mut max = counts[0];
        let mut best: usize = 0;
        let mut k: usize = 1;
        while k < 6
            invariant
                1 <= k <= 6,
                counts@.len() == 6,
                best < k,
                max == counts@[best as int],
                forall|v: int| 0 <= v < 6 ==> #[trigger] counts@[v] == count_value(self@.last_scores, v as usize),
                forall|m: int| 0 <= m < k ==> max >= #[trigger] counts@[m],
            decreases 6 - k,
        {
            if counts[k] > max {
                max = counts[k];
                best = k;
            }
            k = k + 1;
        }
        proof {
            assert(counts@[best as int] == count_value(self@.last_scores, best));
            assert forall|j: int| 0 <= j < 6 implies max >= #[trigger] count_value(self@.last_scores, j as usize) by {
                assert(counts@[j] == count_value(self@.last_scores, j as usize));
            }
        }
        if choice_play {
            let mut five: Vec<i32> = Vec::new();
            let mut m: usize = 0;
            while m < 5
                invariant
                    m <= 5,
                    counts@.len() == 6,
                    five@ == counts@.subrange(0, m as int),
                decreases 5 - m,
            {
                five.push(counts[m]);
                m = m + 1;
                assert(five@ =~= counts@.subrange(0, m as int));
            }
            (five, max)
        } else {
            (counts, max)
        }
    }

    fn choice_same_info(&self, idx: usize) -> (res: bool)
        requires
            self.wf(),
            in_play(self@),
            idx < self@.filter.len(),
            same_info_ok(self@, idx as int),
        ensures
            res == same_info(self@, idx as int),
    {
        let t = self.choice_play.info_type;
        let country = &self.all_countries[self.filter_countries[idx]];
        let current = &self.all_countries[self.filter_countries[self.current]];
        if self.is_info_txt(t) {
            country.infos[t].full == current.infos[t].full
        } else {
            country.images[t].same_link(&current.images[t])
        }
    }

    fn same_guess(&self, a: usize, b: usize) -> (res: bool)
        requires
            self.wf(),
            a < self@.filter.len(),
            b < self@.filter.len(),
            content_ok(self@, a as int, self@.choice_guess_type),
            content_ok(self@, b as int, self@.choice_guess_type),
        ensures
            res == (guess_value(self@, a as int) == guess_value(self@, b as int)),
    {
        let g = self.choice_play.guess_type;
        let ca = &self.all_countries[self.filter_countries[a]];
        let cb = &self.all_countries[self.filter_countries[b]];
        if self.is_info_txt(g) {
            let i = self.to_txt_idx(g);
            ca.infos[i].full == cb.infos[i].full
        } else {
            ca.images[g].same_link(&cb.images[g])
        }
    }

    /// The cards that may be offered as wrong choices for the current card,
    /// in order (see `is_candidate`).
    pub fn guess_candidates(&self) -> (res: Vec<usize>)
        requires
            self.wf(),
            in_play(self@),
            forall|j: int| 0 <= j < self@.filter.len() ==> #[trigger] same_info_ok(self@, j),
            forall|j: int|
                0 <= j < self@.filter.len() && !same_info(self@, j) ==> #[trigger] content_ok(self@, j, self@.choice_guess_type),
            content_ok(self@, self@.current, self@.choice_guess_type),
        ensures
            res@ == candidates(self@),
            forall|a: int, b: int| 0 <= a < b < res@.len() ==> (#[trigger] res@[a]) < (#[trigger] res@[b]),
            forall|a: int| 0 <= a < res@.len() ==> #[trigger] res@[a] < self@.filter.len(),
    {
        let n = self.filter_countries.len();
        let mut res: Vec<usize> = Vec::new();
        let mut j: usize = 0;
        while j < n
            invariant
                n == self@.filter.len(),
                j <= n,
                self.wf(),
                in_play(self@),
                forall|j: int| 0 <= j < self@.filter.len() ==> #[trigger] same_info_ok(self@, j),
                forall|j: int|
                    0 <= j < self@.filter.len() && !same_info(self@, j) ==> #[trigger] content_ok(self@, j, self@.choice_guess_type),
                content_ok(self@, self@.current, self@.choice_guess_type),
                res@ == candidates_upto(self@, j as int),
                forall|a: int, b: int| 0 <= a < b < res@.len() ==> (#[trigger] res@[a]) < (#[trigger] res@[b]),
                forall|a: int| 0 <= a < res@.len() ==> #[trigger] res@[a] < j,
            decreases n - j,
        {
            proof {
                lemma_candidates_step(self@, j as int);
            }
            let mut keep = false;
            if !self.choice_same_info(j) && !self.same_guess(j, self.current) {
                let mut first = true;
                let mut j2: usize = 0;
                while j2 < j
                    invariant
                        n == self@.filter.len(),
                        j < n,
                        j2 <= j,
                        self.wf(),
                        in_play(self@),
                        forall|j: int| 0 <= j < self@.filter.len() ==> #[trigger] same_info_ok(self@, j),
                        forall|j: int|
                            0 <= j < self@.filter.len() && !same_info(self@, j) ==> #[trigger] content_ok(self@, j, self@.choice_guess_type),
                        !same_info(self@, j as int),
                        first == forall|k: int| 0 <= k < j2 && !same_info(self@, k) ==> #[trigger] guess_value(self@, k) != guess_value(self@, j as int),
                    decreases j - j2,
                {
                    if !self.choice_same_info(j2) && self.same_guess(j2, j) {
                        first = false;
                    }
                    j2 = j2 + 1;
                }
                keep = first;
            }
            assert(keep == is_candidate(self@, j as int));
            if keep {
                res.push(j);
            }
            j = j + 1;
        }
        res
    }

    /// Draws the four choices of the current card: three candidates picked
    /// at random and the current card, shuffled.
    fn generate_guesses(&self) -> (res: [usize; 4])
        requires
            self.wf(),
            in_play(self@),
            guesses_possible(self@),
        ensures
            fresh_guesses_ok(self@, res@),
    {
        broadcast use Seq::to_multiset_ensures;

        let cands = self.guess_candidates();
        let mut rng = thread_rng();
        let mut picked = choose_multiple_indices(&cands, &mut rng, 3);
        let ghost chosen = picked@;
        proof {
            let pos = choose|pos: Seq<int>|
                #![trigger pos.len()]
                pos.len() == chosen.len() && (forall|i: int|
                    0 <= i < pos.len() ==> 0 <= #[trigger] pos[i] < cands@.len() && chosen[i] == cands@[pos[i]])
                    && (forall|i: int, j: int| 0 <= i < j < pos.len() ==> #[trigger] pos[i] != #[trigger] pos[j]);
            assert forall|i: int| 0 <= i < 3 implies is_candidate(self@, #[trigger] chosen[i] as int) by {
                Seq::new(self@.filter.len(), |i: int| i as usize).lemma_filter_pred(
                    |i: usize| is_candidate(self@, i as int),
                    pos[i],
                );
            }
            assert forall|i: int, j: int| 0 <= i < j < 3 implies (#[trigger] chosen[i]) != (#[trigger] chosen[j]) by {
                if pos[i] < pos[j] {
                    assert(cands@[pos[i]] < cands@[pos[j]]);
                } else {
                    assert(cands@[pos[j]] < cands@[pos[i]]);
                }
            }
        }
        picked.push(self.current);
        let ghost before = picked@;
        proof {
            assert(same_info(self@, self@.current));
            assert forall|i: int, j: int| 0 <= i < before.len() && 0 <= j < before.len() && i != j implies before[i] != before[j] by {
                if i < 3 && j < 3 {
                    if i < j {
                        assert(chosen[i] != chosen[j]);
                    } else {
                        assert(chosen[j] != chosen[i]);
                    }
                } else if i == 3 {
                    assert(is_candidate(self@, chosen[j] as int));
                } else {
                    assert(is_candidate(self@, chosen[i] as int));
                }
            }
            assert(before.no_duplicates());
            before.lemma_multiset_has_no_duplicates();
        }
        shuffle_indices(&mut picked, &mut rng);
        proof {
            let after = picked@;
            assert(after.len() == 4) by {
                assert(after.to_multiset().len() == before.to_multiset().len());
            }
            after.lemma_multiset_has_no_duplicates_conv();
            assert forall|i: int| 0 <= i < 4 implies before.contains(#[trigger] after[i]) by {
                assert(after.contains(after[i]));
                assert(before.to_multiset().count(after[i]) > 0);
            }
            assert(before.contains(self@.current as usize)) by {
                assert(before[3] == self@.current as usize);
            }
            assert(after.contains(self@.current as usize)) by {
                assert(before.to_multiset().count(self@.current as usize) > 0);
            }
        }
        let res = [picked[0], picked[1], picked[2], picked[3]];
        proof {
            let after = picked@;
            assert(res@ =~= after);
            assert forall|j: int| 0 <= j < 4 && res@[j] != self@.current implies is_candidate(self@, #[trigger] res@[j] as int) by {
                assert(before.contains(res@[j]));
                let m = choose|m: int| 0 <= m < before.len() && before[m] == res@[j];
                if m == 3 {
                    assert(false);
                }
            }
            assert forall|j: int| 0 <= j < 4 implies (#[trigger] res@[j]) < self@.filter.len() by {
                assert(before.contains(res@[j]));
                let m = choose|m: int| 0 <= m < before.len() && before[m] == res@[j];
                if m < 3 {
                    assert(is_candidate(self@, chosen[m] as int));
                }
            }
        }
        res
    }

    /// What the four-choice screen shows of the current card: the question,
    /// the four choices (drawn and recorded on the first visit, see
    /// `generate_guesses`), which of them is right, the choices marked so far
    /// and, unless name is the question or the answer category, the name.
    pub fn get_choices(&mut self) -> (res: ChoicePlayUpdate)
        requires
            old(self).wf(),
            in_play(old(self)@),
            choices_ok(old(self)@),
        ensures
            final(self).wf(),
            in_play(final(self)@),
            choices_recorded(old(self)@, final(self)@),
            scores_cover_results(old(self)@) ==> scores_cover_results(final(self)@),
            choices_match(final(self)@, res),
    {
        let c = self.current;
        let prev_guess = match &self.choice_play.prev_guesses[c] {
            Some(marks) => copy_marks(marks),
            None => vec![false, false, false, false],
        };
        let guess_num = count_marked(&prev_guess);
        let ghost v0 = self@;
        let guess_idx = match self.choice_play.index_guesses[c] {
            Some(g) => g,
            None => {
                let g = self.generate_guesses();
                self.choice_play.index_guesses.set(c, Some(g));
                proof {
                    assert(self@.index_guesses =~= v0.index_guesses.update(c as int, Some(g@)));
                    assert(self@ =~= LogicView { index_guesses: self@.index_guesses, ..v0 });
                    assert forall|i: int| 0 <= i < self@.index_guesses.len() && (#[trigger] self@.index_guesses[i]) is Some
                        implies guesses_valid(self@.index_guesses[i]->0, i, self@.filter.len() as int) by {
                        if i != c {
                            assert(self@.index_guesses[i] == v0.index_guesses[i]);
                        }
                    }
                }
                g
            },
        };
        proof {
            assert(self@.index_guesses[c as int] == Some(guess_idx@));
            assert(self@.countries == v0.countries && self@.filter == v0.filter && self@.cat_img_len == v0.cat_img_len
                && self@.choice_guess_type == v0.choice_guess_type && self@.current == v0.current);
            assert forall|j: int| 0 <= j < 4 implies content_ok(self@, #[trigger] guess_idx@[j] as int, self@.choice_guess_type) by {
                if v0.index_guesses[c as int] is None {
                    if guess_idx@[j] != c {
                        assert(is_candidate(v0, guess_idx@[j] as int));
                        assert(content_ok(v0, guess_idx@[j] as int, v0.choice_guess_type));
                    }
                } else {
                    assert(v0.index_guesses[c as int] == Some(guess_idx@));
                    assert(content_ok(v0, guess_idx@[j] as int, v0.choice_guess_type));
                }
            }
        }
        proof {
            lemma_cover_frame(v0, self@);
        }
        let mut correct: usize = 0;
        while correct < 3 && guess_idx[correct] != c
            invariant
                correct <= 3,
                guess_idx@.contains(c),
                forall|m: int| 0 <= m < correct ==> guess_idx@[m] != c,
            decreases 3 - correct,
        {
            correct = correct + 1;
        }
        proof {
            if guess_idx[correct as int] != c {
                let m = choose|m: int| 0 <= m < 4 && guess_idx@[m] == c;
                assert(false);
            }
        }
        let default_type = self.txt_only_to_global_type(0);
        let default_info = if self.choice_play.guess_type != default_type && self.choice_play.info_type != default_type {
            get_score_key(&self.all_countries[self.filter_countries[c]]).clone()
        } else {
            String::new()
        };
        let info = self.load_content(c, self.choice_play.info_type);
        let mut guesses: Vec<TxtOrImg> = Vec::new();
        let mut k: usize = 0;
        while k < 4
            invariant
                k <= 4,
                self.wf(),
                in_play(self@),
                forall|j: int| 0 <= j < 4 ==> content_ok(self@, #[trigger] guess_idx@[j] as int, self@.choice_guess_type),
                forall|j: int| 0 <= j < 4 ==> (#[trigger] guess_idx@[j]) < self@.filter.len(),
                guesses@.len() == k,
                forall|j: int| 0 <= j < k ==> (#[trigger] guesses@[j])@ == content_at(self@, guess_idx@[j] as int, self@.choice_guess_type),
            decreases 4 - k,
        {
            guesses.push(self.load_content(guess_idx[k], self.choice_play.guess_type));
            k = k + 1;
        }
        proof {
            assert(prev_guess@ == shown_marks(self@)) by {
                if self@.prev_guesses[c as int] is None {
                    assert(prev_guess@ =~= seq![false, false, false, false]);
                }
            }
        }
        ChoicePlayUpdate {
            correct_guess: correct as i32,
            guess_num: guess_num as i32,
            guesses,
            info,
            num: c as i32,
            out_of: self.filter_countries.len() as i32,
            prev_guess,
            default_info,
        }
    }

    /// Records what the player did on the current four-choice card (the
    /// marked choices, and whether the answer was found, which scores the
    /// country 5 less the marks), then moves forward (`next`) or back. When
    /// it moved, the screen of the new card is returned. The flag tells
    /// whether the scores changed and should be saved (`found`).
    pub fn choice_changed(&mut self, was_guessed: Vec<bool>, next: bool, found: bool) -> (res: (Option<ChoicePlayUpdate>, bool))
        requires
            old(self).wf(),
            in_play(old(self)@),
            found ==> old(self)@.scores.contains_key(card_key(old(self)@, old(self)@.current)),
            found ==> count_true(was_guessed@) <= 5,
            found ==> old(self)@.scores[card_key(old(self)@, old(self)@.current)].time_played < u32::MAX,
            found ==> old(self)@.scores[card_key(old(self)@, old(self)@.current)].total_score + (5 - count_true(was_guessed@))
                <= u32::MAX,
            choice_moves(old(self)@, next) ==> choices_ok(
                choice_step(after_choice(old(self)@, was_guessed@, found, next), next),
            ),
        ensures
            final(self).wf(),
            in_play(final(self)@),
            res.1 == found,
            found ==> final(self)@.scores.contains_key(card_key(old(self)@, old(self)@.current)),
            found ==> final(self)@.scores[card_key(old(self)@, old(self)@.current)].last_score == 5 - count_true(
                was_guessed@,
            ),
            found ==> final(self)@.scores[card_key(old(self)@, old(self)@.current)].total_score == old(self)@.scores[card_key(old(self)@, old(self)@.current)].total_score + 5 - count_true(was_guessed@),
            found ==> final(self)@.scores[card_key(old(self)@, old(self)@.current)].time_played == old(self)@.scores[card_key(old(self)@, old(self)@.current)].time_played + 1,
            found ==> final(self)@.last_scores.contains_key(card_key(old(self)@, old(self)@.current)),
            found ==> final(self)@.last_scores[card_key(old(self)@, old(self)@.current)] == 5 - count_true(was_guessed@),
            forall|k: Seq<char>|
                k != card_key(old(self)@, old(self)@.current) ==> #[trigger] final(self)@.scores.contains_key(k)
                    == old(self)@.scores.contains_key(k) && final(self)@.scores[k] == old(self)@.scores[k],
            !found ==> final(self)@.scores == old(self)@.scores,
            scores_cover_results(old(self)@) ==> scores_cover_results(final(self)@),
            res.0 is Some <==> choice_moves(old(self)@, next),
            !choice_moves(old(self)@, next) ==> final(self)@ == after_choice(old(self)@, was_guessed@, found, next),
            choice_moves(old(self)@, next) ==> choices_recorded(
                choice_step(after_choice(old(self)@, was_guessed@, found, next), next),
                final(self)@,
            ),
            res.0 matches Some(update) ==> choices_match(final(self)@, update),
    {
        let ghost v0 = self@;
        let ghost marks = was_guessed@;
        let c = self.current;
        let guess_num = count_marked(&was_guessed);
        self.choice_play.prev_guesses.set(c, Some(was_guessed));
        let key = get_score_key(&self.all_countries[self.filter_countries[c]]).clone();
        let mut save = false;
        if found {
            let gained = (5 - guess_num) as u32;
            if let Some(s) = self.scores.get(&key) {
                self.scores.insert(
                    key.clone(),
                    Score { time_played: s.time_played + 1, total_score: s.total_score + gained, last_score: gained },
                );
            }
            save = true;
            self.last_scores.insert(key, (5 - guess_num) as usize);
        } else if !self.last_scores.contains_key(&key) && next {
            self.last_scores.insert(key, 0);
        }
        proof {
            assert(self@.prev_guesses =~= v0.prev_guesses.update(c as int, Some(marks)));
            assert(self@ =~= after_choice(v0, marks, found, next));
            if found {
                lemma_found_scores_five_less_marks(v0, marks, next);
            } else {
                lemma_not_found_scores_nothing(v0, marks, next);
            }
            if scores_cover_results(v0) {
                lemma_choice_keeps_cover(v0, marks, found, next);
                lemma_cover_frame(after_choice(v0, marks, found, next), choice_step(after_choice(v0, marks, found, next), next));
            }
            assert forall|i: int| 0 <= i < self@.index_guesses.len() && (#[trigger] self@.index_guesses[i]) is Some
                implies guesses_valid(self@.index_guesses[i]->0, i, self@.filter.len() as int) by {
                assert(self@.index_guesses[i] == v0.index_guesses[i]);
            }
        }
        if next {
            if self.current < self.filter_countries.len() - 1 {
                self.current = self.current + 1;
            } else {
                return (None, save);
            }
        } else if self.current > 0 {
            self.current = self.current - 1;
        } else {
            return (None, save);
        }
        proof {
            assert(self@ =~= choice_step(after_choice(v0, marks, found, next), next));
        }
        let update = self.get_choices();
        (Some(update), save)
    }

    /// For each country (in alphabetical order), whether its lower-case name
    /// contains the lower-case search text.
    pub fn search_changed(&self, s: String) -> (res: Vec<bool>)
        requires
            self.wf(),
        ensures
            res@.len() == self@.names_lower.len(),
            forall|i: int| 0 <= i < res@.len() ==> #[trigger] res@[i] == contains_text(self@.names_lower[i], lowercase(s@)),
    {
        let search = to_lowercase(&s);
        let mut res: Vec<bool> = Vec::new();
        let mut i: usize = 0;
        while i < self.country_names_sorted.len()
            invariant
                i <= self.country_names_sorted@.len(),
                search@ == lowercase(s@),
                res@.len() == i,
                forall|m: int| 0 <= m < i ==> #[trigger] res@[m] == contains_text(self@.names_lower[m], lowercase(s@)),
            decreases self.country_names_sorted@.len() - i,
        {
            res.push(text_contains(&self.country_names_sorted[i], &search));
            i = i + 1;
        }
        res
    }

    fn get_full_info_country(&self, country: &CountryInfos, main_scores: &NameMap<Score>, choice_scores: &NameMap<Score>) -> (res: FullInfo)
        requires
            self.wf(),
            main_scores.wf(),
            choice_scores.wf(),
            full_info_ok(self@, *country, main_scores@, choice_scores@),
        ensures
            full_info_matches(self@, *country, main_scores@, choice_scores@, res),
            res.score_free_play == main_scores@[country_name(*country)].last_score as i32,
            res.score_choice_play == choice_scores@[country_name(*country)].last_score as i32,
    {
        let name = get_score_key(country);
        let mut text_infos: Vec<TextWithTitle> = Vec::new();
        let mut image_infos: Vec<ImageWithTitle> = Vec::new();
        let mut i: usize = 0;
        while i < self.categories_names.len()
            invariant
                self.wf(),
                full_info_ok(self@, *country, main_scores@, choice_scores@),
                i <= self.categories_names@.len(),
                image_infos@.len() == if i < self.cat_img_len { i as int } else { self.cat_img_len as int },
                text_infos@.len() == if i < self.cat_img_len { 0 } else { i - self.cat_img_len },
                forall|j: int|
                    0 <= j < text_infos@.len() ==> (#[trigger] text_infos@[j]).title@ == self@.categories[self@.cat_img_len + j]
                        && text_infos@[j].text@ == country.infos@[j].full@,
                forall|k: int|
                    0 <= k < image_infos@.len() ==> (#[trigger] image_infos@[k]).title@ == self@.categories[k]
                        && image_infos@[k].image == country.images@[k],
            decreases self.categories_names@.len() - i,
        {
            if self.is_info_txt(i) {
                text_infos.push(TextWithTitle {
                    title: self.categories_names[i].clone(),
                    text: country.infos[self.to_txt_idx(i)].full.clone(),
                });
            } else {
                image_infos.push(ImageWithTitle {
                    title: self.categories_names[i].clone(),
                    image: country.images[i].duplicate(),
                });
            }
            i = i + 1;
        }
        let status = if country.un_member {
            if *name == String::from_str("Vatican City") {
                String::from_str("Non-member but permanent observer state")
            } else {
                String::from_str("Yes")
            }
        } else {
            String::from_str("No")
        };
        text_infos.push(TextWithTitle { title: String::from_str("UN Member"), text: status });
        let score_free_play = match main_scores.get(name) {
            Some(sc) => sc.last_score as i32,
            None => 0,
        };
        let score_choice_play = match choice_scores.get(name) {
            Some(sc) => sc.last_score as i32,
            None => 0,
        };
        FullInfo {
            name: name.clone(),
            text_infos,
            image_infos,
            score_free_play,
            score_choice_play,
            wiki_link: country.wiki_link.clone(),
        }
    }

    /// The look-up screen of the current card's country, with its scores
    /// from the two score files (`main_scores`, `choice_scores`).
    pub fn look_up_current(&self, main_scores: &NameMap<Score>, choice_scores: &NameMap<Score>) -> (res: FullInfo)
        requires
            self.wf(),
            main_scores.wf(),
            choice_scores.wf(),
            0 <= self@.current < self@.filter.len(),
            full_info_ok(self@, card_country(self@, self@.current), main_scores@, choice_scores@),
        ensures
            full_info_matches(self@, card_country(self@, self@.current), main_scores@, choice_scores@, res),
            res.score_free_play == main_scores@[card_key(self@, self@.current)].last_score as i32,
            res.score_choice_play == choice_scores@[card_key(self@, self@.current)].last_score as i32,
    {
        self.get_full_info_country(&self.all_countries[self.filter_countries[self.current]], main_scores, choice_scores)
    }

    /// The look-up screen of country `num` (in alphabetical order), with its
    /// scores from the two score files.
    pub fn look_up_selected(&self, num: usize, main_scores: &NameMap<Score>, choice_scores: &NameMap<Score>) -> (res: FullInfo)
        requires
            self.wf(),
            main_scores.wf(),
            choice_scores.wf(),
            num < self@.countries.len(),
            full_info_ok(self@, self@.countries[num as int], main_scores@, choice_scores@),
        ensures
            full_info_matches(self@, self@.countries[num as int], main_scores@, choice_scores@, res),
            res.score_free_play == main_scores@[country_name(self@.countries[num as int])].last_score as i32,
            res.score_choice_play == choice_scores@[country_name(self@.countries[num as int])].last_score as i32,
    {
        self.get_full_info_country(&self.all_countries[num], main_scores, choice_scores)
    }

    /// The score statistics of region `sub_cat_idx` (0: the whole world)
    /// among the current cards, from the two score files: for each score
    /// value, how many countries have it as last score and as average score
    /// (the average rounded to the nearest integer, halves up), per game
    /// mode; and per mode the largest of these counts.
    pub fn score_sub_cat_changed(&self, sub_cat_idx: usize, main_scores: &NameMap<Score>, choice_scores: &NameMap<Score>) -> (res: ScoreStats)
        requires
            self.wf(),
            main_scores.wf(),
            choice_scores.wf(),
            stats_ok(self@, sub_cat_idx as int, main_scores@, choice_scores@),
        ensures
            forall|j: int| 0 <= j < 6 ==> #[trigger] res.main_last@[j] == region_count(self@, sub_cat_idx as int, main_scores@, false, j, self@.filter.len() as int),
            forall|j: int| 0 <= j < 6 ==> #[trigger] res.main_avg@[j] == region_count(self@, sub_cat_idx as int, main_scores@, true, j, self@.filter.len() as int),
            forall|j: int| 0 <= j < 5 ==> #[trigger] res.choice_last@[j] == region_count(self@, sub_cat_idx as int, choice_scores@, false, j, self@.filter.len() as int),
            forall|j: int| 0 <= j < 5 ==> #[trigger] res.choice_avg@[j] == region_count(self@, sub_cat_idx as int, choice_scores@, true, j, self@.filter.len() as int),
            is_max_of(res.main_max, res.main_avg@, res.main_last@),
            is_max_of(res.choice_max, res.choice_avg@, res.choice_last@),
    {
        let ghost v = self@;
        let ghost region = sub_cat_idx as int;
        let ghost mm = main_scores@;
        let ghost cm = choice_scores@;
        let n = self.filter_countries.len();
        let mut main_avg: Vec<i32> = vec![0, 0, 0, 0, 0, 0];
        let mut main_last: Vec<i32> = vec![0, 0, 0, 0, 0, 0];
        let mut choice_avg: Vec<i32> = vec![0, 0, 0, 0, 0];
        let mut choice_last: Vec<i32> = vec![0, 0, 0, 0, 0];
        proof {
            assert forall|j: int| 0 <= j < 6 implies region_count(v, region, mm, false, j, 0) == 0
                && region_count(v, region, mm, true, j, 0) == 0 by {
                assert(Seq::new(0nat, |i: int| i) =~= Seq::<int>::empty());
                reveal_with_fuel(Seq::filter, 1);
            }
            assert forall|j: int| 0 <= j < 5 implies region_count(v, region, cm, false, j, 0) == 0
                && region_count(v, region, cm, true, j, 0) == 0 by {
                assert(Seq::new(0nat, |i: int| i) =~= Seq::<int>::empty());
                reveal_with_fuel(Seq::filter, 1);
            }
        }
        let mut i: usize = 0;
        while i < n
            invariant
                v == self@,
                region == sub_cat_idx as int,
                mm == main_scores@,
                cm == choice_scores@,
                self.wf(),
                main_scores.wf(),
                choice_scores.wf(),
                n == v.filter.len(),
                i <= n,
                stats_ok(v, region, mm, cm),
                main_avg@.len() == 6,
                main_last@.len() == 6,
                choice_avg@.len() == 5,
                choice_last@.len() == 5,
                forall|j: int| 0 <= j < 6 ==> #[trigger] main_last@[j] == region_count(v, region, mm, false, j, i as int),
                forall|j: int| 0 <= j < 6 ==> #[trigger] main_avg@[j] == region_count(v, region, mm, true, j, i as int),
                forall|j: int| 0 <= j < 5 ==> #[trigger] choice_last@[j] == region_count(v, region, cm, false, j, i as int),
                forall|j: int| 0 <= j < 5 ==> #[trigger] choice_avg@[j] == region_count(v, region, cm, true, j, i as int),
            decreases n - i,
        {
            proof {
                assert forall|j: int| 0 <= j < 6 implies region_count(v, region, mm, false, j, i + 1) == region_count(v, region, mm, false, j, i as int) + (if counted(v, region, mm, false, j)(i as int) { 1int } else { 0int })
                    && region_count(v, region, mm, true, j, i + 1) == region_count(v, region, mm, true, j, i as int) + (if counted(v, region, mm, true, j)(i as int) { 1int } else { 0int })
                    && region_count(v, region, mm, false, j, i as int) <= i
                    && region_count(v, region, mm, true, j, i as int) <= i by {
                    lemma_region_count_step(v, region, mm, false, j, i as int);
                    lemma_region_count_step(v, region, mm, true, j, i as int);
                }
                assert forall|j: int| 0 <= j < 5 implies region_count(v, region, cm, false, j, i + 1) == region_count(v, region, cm, false, j, i as int) + (if counted(v, region, cm, false, j)(i as int) { 1int } else { 0int })
                    && region_count(v, region, cm, true, j, i + 1) == region_count(v, region, cm, true, j, i as int) + (if counted(v, region, cm, true, j)(i as int) { 1int } else { 0int })
                    && region_count(v, region, cm, false, j, i as int) <= i
                    && region_count(v, region, cm, true, j, i as int) <= i by {
                    lemma_region_count_step(v, region, cm, false, j, i as int);
                    lemma_region_count_step(v, region, cm, true, j, i as int);
                }
            }
            let country = &self.all_countries[self.filter_countries[i]];
            let selected = sub_cat_idx == 0 || country.region == sub_cat_name_of(sub_cat_idx);
            if selected {
                let name = get_score_key(country);
                proof {
                    assert(in_region(v, region, i));
                    assert(mm.contains_key(card_key(v, i as int)));
                }
                if let Some(sc) = main_scores.get(name) {
                    let last = sc.last_score as usize;
                    main_last.set(last, main_last[last] + 1);
                    let avg: usize = if sc.time_played > 0 {
                        ((2 * (sc.total_score as u64) + (sc.time_played as u64)) / (2 * (sc.time_played as u64))) as usize
                    } else {
                        0
                    };
                    main_avg.set(avg, main_avg[avg] + 1);
                }
                if let Some(sc) = choice_scores.get(name) {
                    let last = sc.last_score as usize;
                    choice_last.set(last, choice_last[last] + 1);
                    let avg: usize = if sc.time_played > 0 {
                        ((2 * (sc.total_score as u64) + (sc.time_played as u64)) / (2 * (sc.time_played as u64))) as usize
                    } else {
                        0
                    };
                    choice_avg.set(avg, choice_avg[avg] + 1);
                }
            }
            i = i + 1;
        }
        let main_max_avg = max_count(&main_avg);
        let main_max_last = max_count(&main_last);
        let choice_max_avg = max_count(&choice_avg);
        let choice_max_last = max_count(&choice_last);
        let res = ScoreStats {
            main_avg: [main_avg[0], main_avg[1], main_avg[2], main_avg[3], main_avg[4], main_avg[5]],
            main_last: [main_last[0], main_last[1], main_last[2], main_last[3], main_last[4], main_last[5]],
            choice_avg: [choice_avg[0], choice_avg[1], choice_avg[2], choice_avg[3], choice_avg[4]],
            choice_last: [choice_last[0], choice_last[1], choice_last[2], choice_last[3], choice_last[4]],
            main_max: if main_max_avg >= main_max_last { main_max_avg } else { main_max_last },
            choice_max: if choice_max_avg >= choice_max_last { choice_max_avg } else { choice_max_last },
        };
        proof {
            assert(res.main_avg@ =~= main_avg@);
            assert(res.main_last@ =~= main_last@);
            assert(res.choice_avg@ =~= choice_avg@);
            assert(res.choice_last@ =~= choice_last@);
        }
        res
    }

    /// The cards of the play: positions of their countries among all
    /// countries (which are in alphabetical order).
    pub fn play_countries(&self) -> (res: &Vec<usize>)
        ensures
            res@ == self@.filter,
    {
        &self.filter_countries
    }

    /// The position of the current card in the play.
    pub fn current_card(&self) -> (res: usize)
        ensures
            res == self@.current,
    {
        self.current
    }

    /// All countries, in alphabetical order.
    pub fn all_countries(&self) -> (res: &Vec<CountryInfos>)
        ensures
            res@ == self@.countries,
    {
        &self.all_countries
    }

    /// The score each country got last in this play.
    pub fn last_scores(&self) -> (res: &NameMap<usize>)
        requires
            self.wf(),
        ensures
            res.wf(),
            res@ == self@.last_scores,
    {
        &self.last_scores
    }

    fn is_info_txt(&self, i: usize) -> (res: bool)
        ensures
            res == is_txt(self@, i as int),
    {
        i >= self.cat_img_len
    }

    fn txt_only_to_global_type(&self, i: usize) -> (res: usize)
        requires
            i + self@.cat_img_len <= usize::MAX,
        ensures
            res == i + self@.cat_img_len,
    {
        i + self.cat_img_len
    }

    fn to_txt_idx(&self, i: usize) -> (res: usize)
        requires
            i >= self@.cat_img_len,
        ensures
            res == i - self@.cat_img_len,
    {
        i - self.cat_img_len
    }
}

} // verus!
