use vstd::prelude::*;

use crate::name_map::NameMap;

use crate::sorting::{
    key_class, key_equiv, lemma_chars_equiv, lemma_filter_empty, lemma_filter_map_values, lex_lt,
    stable_sort_by_key, SortKey,
};

verus! {

/// One piece of information about a country (its name, capital, ...),
/// with an optional hint such as "U... ...".
#[derive(Debug, Clone)]
pub struct Category {
    pub full: String,
    pub hint: Option<String>,
}

/// Everything the quiz knows: the countries and the names of the text and
/// image categories.
#[derive(Debug, Clone)]
pub struct AllInfos {
    pub all_countries: Vec<CountryInfos>,
    pub info_names: Vec<String>,
    pub image_names: Vec<String>,
}

/// The data of one country. `infos[0]` is the country's name.
#[derive(Debug, Clone)]
pub struct CountryInfos {
    pub region: String,
    pub un_member: bool,
    pub infos: Vec<Category>,
    pub images: Vec<ImageLink>,
    pub wiki_link: String,
}

/// The score of one country in one game mode.
#[derive(Debug, Clone, Copy, PartialEq, Eq)]
pub struct Score {
    pub time_played: u32,
    pub total_score: u32,
    pub last_score: u32,
}

impl Default for Score {
    fn default() -> (s: Score)
        ensures
            s.time_played == 0,
            s.total_score == 0,
            s.last_score == 0,
    {
        Score { time_played: 0, total_score: 0, last_score: 0 }
    }
}

/// An image, either embedded SVG data or a path relative to the data folder.
#[derive(Debug, Clone)]
pub enum ImageLink {
    EmbeddedSVG(String),
    FilePath(String),
}

/// What an image link denotes: its kind and its text.
pub enum ImageLinkView {
    EmbeddedSVG(Seq<char>),
    FilePath(Seq<char>),
}

impl View for ImageLink {
    type V = ImageLinkView;

    open spec fn view(&self) -> ImageLinkView {
        match self {
            ImageLink::EmbeddedSVG(s) => ImageLinkView::EmbeddedSVG(s@),
            ImageLink::FilePath(s) => ImageLinkView::FilePath(s@),
        }
    }
}

impl ImageLink {
    /// A copy of the link.
    pub fn duplicate(&self) -> (res: ImageLink)
        ensures
            res == *self,
            res@ == self@,
    {
        match self {
            ImageLink::EmbeddedSVG(s) => ImageLink::EmbeddedSVG(s.clone()),
            ImageLink::FilePath(s) => ImageLink::FilePath(s.clone()),
        }
    }

    /// Whether two links denote the same image (same kind, same text).
    pub fn same_link(&self, other: &ImageLink) -> (res: bool)
        ensures
            res == (self@ == other@),
    {
        match (self, other) {
            (ImageLink::EmbeddedSVG(a), ImageLink::EmbeddedSVG(b)) => *a == *b,
            (ImageLink::FilePath(a), ImageLink::FilePath(b)) => *a == *b,
            _ => false,
        }
    }
}

/// The name of a country, under which its scores are kept.
pub open spec fn country_name(country: CountryInfos) -> Seq<char> {
    country.infos@[0].full@
}

/// The key of a country's score: its name, `infos[0].full`.
pub fn get_score_key(country: &CountryInfos) -> (key: &String)
    requires
        country.infos@.len() > 0,
    ensures
        *key == country.infos@[0].full,
        key@ == country_name(*country),
{
    &country.infos[0].full
}


/// The characters of a string, one by one.
pub fn chars_of(s: &String) -> (res: Vec<char>)
    ensures
        res@ == s@,
{
    let text = s.as_str();
    let n = text.unicode_len();
    let mut res: Vec<char> = Vec::new();
    let mut i: usize = 0;
    while i < n
        invariant
            n == s@.len(),
            text@ == s@,
            i <= n,
            res@ == s@.subrange(0, i as int),
        decreases n - i,
    {
        let c = text.get_char(i);
        res.push(c);
        i = i + 1;
        assert(res@ =~= s@.subrange(0, i as int));
    }
    assert(res@ =~= s@);
    res
}

/// Every country has at least its name among its infos.
pub open spec fn countries_named(countries: Seq<CountryInfos>) -> bool {
    forall|i: int| 0 <= i < countries.len() ==> (#[trigger] countries[i]).infos@.len() > 0
}

/// The countries in alphabetical order of their names.
pub open spec fn sorted_by_name(countries: Seq<CountryInfos>) -> bool {
    forall|i: int, j: int|
        0 <= i < j < countries.len() ==> !lex_lt(
            country_name(#[trigger] countries[j]),
            country_name(#[trigger] countries[i]),
        )
}

/// The countries named `n`, in their order in `countries`.
pub open spec fn named(countries: Seq<CountryInfos>, n: Seq<char>) -> Seq<CountryInfos> {
    countries.filter(|c: CountryInfos| country_name(c) == n)
}

spec fn pair_country(p: (Vec<char>, CountryInfos)) -> CountryInfos {
    p.1
}

/// The quiz data with its countries sorted by name. Countries of the same
/// name keep their order (the sort is stable).
pub fn get_data(all_infos: AllInfos) -> (res: AllInfos)
    requires
        countries_named(all_infos.all_countries@),
    ensures
        res.info_names == all_infos.info_names,
        res.image_names == all_infos.image_names,
        res.all_countries@.len() == all_infos.all_countries@.len(),
        sorted_by_name(res.all_countries@),
        forall|n: Seq<char>| #[trigger] named(res.all_countries@, n) == named(all_infos.all_countries@, n),
{
    broadcast use vstd::seq_lib::group_seq_properties;
    broadcast use Seq::to_multiset_ensures;

    let AllInfos { all_countries, info_names, image_names } = all_infos;
    let ghost input = all_countries@;
    let mut rest = all_countries;
    let mut pairs: Vec<(Vec<char>, CountryInfos)> = Vec::new();
    while rest.len() > 0
        invariant
            rest@ == input.subrange(0, rest@.len() as int),
            countries_named(input),
            pairs@.len() + rest@.len() == input.len(),
            forall|j: int| 0 <= j < pairs@.len() ==> (#[trigger] pairs@[j]).1 == input[rest@.len() + j],
            forall|j: int| 0 <= j < pairs@.len() ==> (#[trigger] pairs@[j]).0@ == country_name(pairs@[j].1),
        decreases rest@.len(),
    {
        let c = rest.pop().unwrap();
        let k = chars_of(get_score_key(&c));
        pairs.insert(0, (k, c));
    }
    let ghost ps_in = pairs@;
    let sorted = stable_sort_by_key(pairs);
    let ghost ps_out = sorted@;
    proof {
        assert forall|j: int| 0 <= j < ps_out.len() implies (#[trigger] ps_out[j]).0@ == country_name(ps_out[j].1) by {
            assert(ps_out.contains(ps_out[j]));
            assert(ps_in.to_multiset().count(ps_out[j]) > 0);
            assert(ps_in.contains(ps_out[j]));
        }
    }
    let mut sorted = sorted;
    let mut out: Vec<CountryInfos> = Vec::new();
    while sorted.len() > 0
        invariant
            sorted@ == ps_out.subrange(0, sorted@.len() as int),
            out@.len() + sorted@.len() == ps_out.len(),
            forall|j: int| 0 <= j < out@.len() ==> (#[trigger] out@[j]) == ps_out[sorted@.len() + j].1,
        decreases sorted@.len(),
    {
        let (_k, c) = sorted.pop().unwrap();
        out.insert(0, c);
    }
    proof {
        assert(ps_in.map_values(|p: (Vec<char>, CountryInfos)| pair_country(p)) =~= input);
        assert(ps_out.map_values(|p: (Vec<char>, CountryInfos)| pair_country(p)) =~= out@);
        assert forall|i: int, j: int| 0 <= i < j < out@.len() implies !lex_lt(
            country_name(#[trigger] out@[j]),
            country_name(#[trigger] out@[i]),
        ) by {
            assert(!ps_out[j].0.key_lt(ps_out[i].0));
        }
        assert forall|n: Seq<char>| #[trigger] named(out@, n) == named(input, n) by {
            let q = |c: CountryInfos| country_name(c) == n;
            let f = |p: (Vec<char>, CountryInfos)| pair_country(p);
            if exists|i: int| 0 <= i < input.len() && country_name(input[i]) == n {
                let i = choose|i: int| 0 <= i < input.len() && country_name(input[i]) == n;
                let k = ps_in[i].0;
                let p = |pp: (Vec<char>, CountryInfos)| key_equiv(pp.0, k);
                assert forall|j: int| 0 <= j < ps_in.len() implies p(#[trigger] ps_in[j]) == q(f(ps_in[j])) by {
                    lemma_chars_equiv(ps_in[j].0, k);
                }
                assert forall|j: int| 0 <= j < ps_out.len() implies p(#[trigger] ps_out[j]) == q(f(ps_out[j])) by {
                    lemma_chars_equiv(ps_out[j].0, k);
                }
                lemma_filter_map_values(ps_in, p, q, f);
                lemma_filter_map_values(ps_out, p, q, f);
                assert(key_class(ps_out, k) == key_class(ps_in, k));
                assert(key_class(ps_out, k).map_values(f) == key_class(ps_in, k).map_values(f));
            } else {
                lemma_filter_empty(input, q);
                assert forall|j: int| 0 <= j < out@.len() implies !q(#[trigger] out@[j]) by {
                    let x = ps_out[j];
                    assert(ps_out.contains(x));
                    assert(ps_in.to_multiset().count(x) > 0);
                    assert(ps_in.contains(x));
                    let i = choose|i: int| 0 <= i < ps_in.len() && ps_in[i] == x;
                    assert(input[i] == x.1);
                }
                lemma_filter_empty(out@, q);
            }
        }
    }
    AllInfos { all_countries: out, info_names, image_names }
}


/// Every country named so far starts with an empty score.
pub open spec fn default_scores(countries: Seq<CountryInfos>, m: int) -> Map<Seq<char>, Score>
    decreases m,
{
    if m <= 0 {
        Map::empty()
    } else {
        default_scores(countries, m - 1).insert(
            country_name(countries[m - 1]),
            Score { time_played: 0, total_score: 0, last_score: 0 },
        )
    }
}

/// The scores of a score file: those read from it (`parsed`, when the file
/// exists and holds valid scores), else an empty score for every country.
pub fn read(all_countries: &Vec<CountryInfos>, parsed: Option<NameMap<Score>>) -> (res: NameMap<Score>)
    requires
        countries_named(all_countries@),
        parsed matches Some(m) ==> m.wf(),
    ensures
        res.wf(),
        res@ == match parsed {
            Some(m) => m@,
            None => default_scores(all_countries@, all_countries@.len() as int),
        },
{
    match parsed {
        Some(m) => m,
        None => {
            let mut res: NameMap<Score> = NameMap::new();
            let mut i: usize = 0;
            while i < all_countries.len()
                invariant
                    countries_named(all_countries@),
                    i <= all_countries@.len(),
                    res.wf(),
                    res@ == default_scores(all_countries@, i as int),
                decreases all_countries@.len() - i,
            {
                res.insert(get_score_key(&all_countries[i]).clone(), Score::default());
                i = i + 1;
            }
            res
        },
    }
}

spec fn pair_name(p: (Vec<char>, String)) -> String {
    p.1
}

/// The names `n` among `names`.
pub open spec fn named_as(names: Seq<String>, n: Seq<char>) -> Seq<String> {
    names.filter(|s: String| s@ == n)
}

/// The user folders' names in order: sorted as `str` sorts.
pub fn list_folders(folder_names: Vec<String>) -> (res: Vec<String>)
    ensures
        res@.len() == folder_names@.len(),
        forall|i: int, j: int| 0 <= i < j < res@.len() ==> !lex_lt((#[trigger] res@[j])@, (#[trigger] res@[i])@),
        forall|n: Seq<char>| #[trigger] named_as(res@, n) == named_as(folder_names@, n),
{
    broadcast use vstd::seq_lib::group_seq_properties;
    broadcast use Seq::to_multiset_ensures;

    let ghost input = folder_names@;
    let mut rest = folder_names;
    let mut pairs: Vec<(Vec<char>, String)> = Vec::new();
    while rest.len() > 0
        invariant
            rest@ == input.subrange(0, rest@.len() as int),
            pairs@.len() + rest@.len() == input.len(),
            forall|j: int| 0 <= j < pairs@.len() ==> (#[trigger] pairs@[j]).1 == input[rest@.len() + j],
            forall|j: int| 0 <= j < pairs@.len() ==> (#[trigger] pairs@[j]).0@ == pairs@[j].1@,
        decreases rest@.len(),
    {
        let name = rest.pop().unwrap();
        let k = chars_of(&name);
        pairs.insert(0, (k, name));
    }
    let ghost ps_in = pairs@;
    let sorted = stable_sort_by_key(pairs);
    let ghost ps_out = sorted@;
    proof {
        assert forall|j: int| 0 <= j < ps_out.len() implies (#[trigger] ps_out[j]).0@ == ps_out[j].1@ by {
            assert(ps_out.contains(ps_out[j]));
            assert(ps_in.to_multiset().count(ps_out[j]) > 0);
            assert(ps_in.contains(ps_out[j]));
        }
    }
    let mut sorted = sorted;
    let mut out: Vec<String> = Vec::new();
    while sorted.len() > 0
        invariant
            sorted@ == ps_out.subrange(0, sorted@.len() as int),
            out@.len() + sorted@.len() == ps_out.len(),
            forall|j: int| 0 <= j < out@.len() ==> (#[trigger] out@[j]) == ps_out[sorted@.len() + j].1,
        decreases sorted@.len(),
    {
        let (_k, name) = sorted.pop().unwrap();
        out.insert(0, name);
    }
    proof {
        assert(ps_in.map_values(|p: (Vec<char>, String)| pair_name(p)) =~= input);
        assert(ps_out.map_values(|p: (Vec<char>, String)| pair_name(p)) =~= out@);
        assert forall|i: int, j: int| 0 <= i < j < out@.len() implies !lex_lt((#[trigger] out@[j])@, (#[trigger] out@[i])@) by {
            assert(!ps_out[j].0.key_lt(ps_out[i].0));
        }
        assert forall|n: Seq<char>| #[trigger] named_as(out@, n) == named_as(input, n) by {
            let q = |s: String| s@ == n;
            let f = |p: (Vec<char>, String)| pair_name(p);
            if exists|i: int| 0 <= i < input.len() && input[i]@ == n {
                let i = choose|i: int| 0 <= i < input.len() && input[i]@ == n;
                let k = ps_in[i].0;
                let p = |pp: (Vec<char>, String)| key_equiv(pp.0, k);
                assert forall|j: int| 0 <= j < ps_in.len() implies p(#[trigger] ps_in[j]) == q(f(ps_in[j])) by {
                    lemma_chars_equiv(ps_in[j].0, k);
                }
                assert forall|j: int| 0 <= j < ps_out.len() implies p(#[trigger] ps_out[j]) == q(f(ps_out[j])) by {
                    lemma_chars_equiv(ps_out[j].0, k);
                }
                lemma_filter_map_values(ps_in, p, q, f);
                lemma_filter_map_values(ps_out, p, q, f);
                assert(key_class(ps_out, k) == key_class(ps_in, k));
                assert(key_class(ps_out, k).map_values(f) == key_class(ps_in, k).map_values(f));
            } else {
                lemma_filter_empty(input, q);
                assert forall|j: int| 0 <= j < out@.len() implies !q(#[trigger] out@[j]) by {
                    let x = ps_out[j];
                    assert(ps_out.contains(x));
                    assert(ps_in.to_multiset().count(x) > 0);
                    assert(ps_in.contains(x));
                    let i = choose|i: int| 0 <= i < ps_in.len() && ps_in[i] == x;
                    assert(input[i] == x.1);
                }
                lemma_filter_empty(out@, q);
            }
        }
    }
    out
}

} // verus!
