use geo_quiz::info_parse::{
    chars_of, get_data, get_score_key, list_folders, read, AllInfos, Category, CountryInfos, ImageLink, Score,
};
use geo_quiz::name_map::NameMap;
use geo_quiz::sorting::stable_sort_by_key;
use geo_quiz::text::{chars_contain, text_contains};

fn country(name: &str, tag: &str) -> CountryInfos {
    CountryInfos {
        region: "Europe".to_string(),
        un_member: true,
        infos: vec![Category { full: name.to_string(), hint: None }],
        images: vec![ImageLink::FilePath(format!("{}.svg", tag))],
        wiki_link: tag.to_string(),
    }
}

#[test]
fn get_data_sorts_countries_by_name() {
    let infos = AllInfos {
        all_countries: vec![country("Spain", "es"), country("Austria", "at"), country("Malta", "mt")],
        info_names: vec!["Country".to_string()],
        image_names: vec!["Flag".to_string()],
    };
    let sorted = get_data(infos);
    let names: Vec<&str> = sorted.all_countries.iter().map(|c| c.infos[0].full.as_str()).collect();
    assert_eq!(names, vec!["Austria", "Malta", "Spain"]);
    assert_eq!(sorted.info_names, vec!["Country".to_string()]);
    assert_eq!(sorted.image_names, vec!["Flag".to_string()]);
}

#[test]
fn get_data_keeps_order_of_equal_names() {
    let infos = AllInfos {
        all_countries: vec![
            country("Congo", "first"),
            country("Chad", "td"),
            country("Congo", "second"),
            country("Benin", "bj"),
        ],
        info_names: vec![],
        image_names: vec![],
    };
    let sorted = get_data(infos);
    let tags: Vec<&str> = sorted.all_countries.iter().map(|c| c.wiki_link.as_str()).collect();
    assert_eq!(tags, vec!["bj", "td", "first", "second"]);
}

#[test]
fn get_data_orders_by_code_point_not_by_case() {
    // str's order compares code points: upper case letters come first.
    let infos = AllInfos {
        all_countries: vec![country("eswatini", "sz"), country("Zambia", "zm"), country("Åland", "ax")],
        info_names: vec![],
        image_names: vec![],
    };
    let sorted = get_data(infos);
    let names: Vec<&str> = sorted.all_countries.iter().map(|c| c.infos[0].full.as_str()).collect();
    assert_eq!(names, vec!["Zambia", "eswatini", "Åland"]);
}

#[test]
fn get_data_of_no_country() {
    let infos = AllInfos { all_countries: vec![], info_names: vec![], image_names: vec![] };
    assert!(get_data(infos).all_countries.is_empty());
}

#[test]
fn score_key_is_the_name() {
    let c = country("Peru", "pe");
    assert_eq!(get_score_key(&c), "Peru");
}

#[test]
fn score_default_is_zero() {
    let s = Score::default();
    assert_eq!((s.time_played, s.total_score, s.last_score), (0, 0, 0));
}

#[test]
fn image_links_compare_by_kind_and_text() {
    let a = ImageLink::FilePath("x.svg".to_string());
    let b = ImageLink::EmbeddedSVG("x.svg".to_string());
    assert!(a.same_link(&a.duplicate()));
    assert!(!a.same_link(&b));
    assert!(!a.same_link(&ImageLink::FilePath("y.svg".to_string())));
}

#[test]
fn chars_of_reads_unicode_characters() {
    assert_eq!(chars_of(&"Côte".to_string()), vec!['C', 'ô', 't', 'e']);
    assert!(chars_of(&String::new()).is_empty());
}

#[test]
fn name_map_insert_replaces() {
    let mut m: NameMap<u32> = NameMap::new();
    m.insert("a".to_string(), 1);
    m.insert("b".to_string(), 2);
    m.insert("a".to_string(), 3);
    assert_eq!(m.get(&"a".to_string()), Some(3));
    assert_eq!(m.get(&"b".to_string()), Some(2));
    assert_eq!(m.get(&"c".to_string()), None);
    assert!(m.contains_key(&"b".to_string()));
    assert_eq!(m.entries().len(), 2);
}

#[test]
fn stable_sort_keeps_ties_in_order() {
    let pairs: Vec<(u32, char)> = vec![(2, 'a'), (1, 'b'), (2, 'c'), (0, 'd'), (1, 'e')];
    let out = stable_sort_by_key(pairs);
    assert_eq!(out, vec![(0, 'd'), (1, 'b'), (1, 'e'), (2, 'a'), (2, 'c')]);
}

#[test]
fn text_search() {
    assert!(text_contains(&"netherlands".to_string(), &"the".to_string()));
    assert!(!text_contains(&"peru".to_string(), &"pel".to_string()));
    assert!(text_contains(&"peru".to_string(), &String::new()));
    assert!(!text_contains(&"a".to_string(), &"ab".to_string()));
    assert!(chars_contain(&vec!['a', 'a', 'b'], &vec!['a', 'b']));
    assert!(text_contains(&"peru".to_string(), &"peru".to_string()));
}

#[test]
fn read_falls_back_to_empty_scores() {
    let countries = vec![country("Chad", "td"), country("Peru", "pe")];
    let scores = read(&countries, None);
    assert_eq!(scores.entries().len(), 2);
    assert_eq!(scores.get(&"Chad".to_string()), Some(Score::default()));
    assert_eq!(scores.get(&"Peru".to_string()), Some(Score { time_played: 0, total_score: 0, last_score: 0 }));
    let mut parsed = NameMap::new();
    parsed.insert("Peru".to_string(), Score { time_played: 1, total_score: 4, last_score: 4 });
    let scores = read(&countries, Some(parsed));
    assert_eq!(scores.entries().len(), 1);
    assert_eq!(scores.get(&"Peru".to_string()).unwrap().total_score, 4);
}

#[test]
fn user_folders_sorted() {
    let names = vec!["User 2".to_string(), "Anna".to_string(), "User 10".to_string(), "bob".to_string()];
    assert_eq!(list_folders(names), vec!["Anna", "User 10", "User 2", "bob"]);
    assert!(list_folders(vec![]).is_empty());
}
