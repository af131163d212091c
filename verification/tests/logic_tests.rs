use geo_quiz::info_parse::{AllInfos, Category, CountryInfos, ImageLink, Score};
use geo_quiz::logic::{
    choice_score_name, count_marked, main_score_name, order_by_total, sub_cat_names, AppLogic,
    OrderType, PlaySelectParams, TxtOrImg,
};
use geo_quiz::name_map::NameMap;

fn country(name: &str, capital: &str, region: &str, un: bool) -> CountryInfos {
    CountryInfos {
        region: region.to_string(),
        un_member: un,
        infos: vec![
            Category { full: name.to_string(), hint: Some(format!("{}...", &name[..1])) },
            Category { full: capital.to_string(), hint: None },
        ],
        images: vec![ImageLink::FilePath(format!("{}.svg", name.to_lowercase()))],
        wiki_link: format!("https://en.wikipedia.org/wiki/{}", name),
    }
}

fn infos() -> AllInfos {
    AllInfos {
        all_countries: vec![
            country("Albania", "Tirana", "Europe", true),
            country("Brazil", "Brasilia", "Americas", true),
            country("Chile", "Santiago", "Americas", true),
            country("Kosovo", "Pristina", "Europe", false),
            country("Nepal", "Kathmandu", "Asia", true),
            country("Vatican City", "Vatican City", "Europe", true),
        ],
        info_names: vec!["Country".to_string(), "Capital".to_string()],
        image_names: vec!["Flag".to_string()],
    }
}

fn score(time_played: u32, total_score: u32, last_score: u32) -> Score {
    Score { time_played, total_score, last_score }
}

fn scores() -> NameMap<Score> {
    let mut m = NameMap::new();
    m.insert("Albania".to_string(), score(5, 10, 2));
    m.insert("Brazil".to_string(), score(2, 3, 1));
    m.insert("Chile".to_string(), score(2, 7, 4));
    m.insert("Kosovo".to_string(), score(0, 0, 0));
    m.insert("Nepal".to_string(), score(3, 7, 3));
    m.insert("Vatican City".to_string(), score(1, 1, 1));
    m
}

fn params(play_type: bool, region_idx: i32, include_hard: bool, order: i32) -> PlaySelectParams {
    PlaySelectParams { play_type, region_idx, include_hard, order }
}

fn logic() -> AppLogic {
    AppLogic::new(infos(), vec![])
}

fn names(l: &AppLogic) -> Vec<String> {
    l.play_countries().iter().map(|&i| l.all_countries()[i].infos[0].full.clone()).collect()
}

fn flash_play(order: i32) -> AppLogic {
    let mut l = logic();
    l.set_config(params(true, 0, false, order));
    l.prepare_main_play(0, [0, 1, 0], scores());
    l
}

#[test]
fn order_type_from_setting() {
    assert_eq!(OrderType::from(0), OrderType::EasyFirst);
    assert_eq!(OrderType::from(1), OrderType::Random);
    assert_eq!(OrderType::from(2), OrderType::HardFirst);
}

#[test]
fn new_logic_defaults() {
    let l = logic();
    assert_eq!(l.get_active_user(), "User 1");
    assert_eq!(l.get_all_categories_name(), &vec!["Flag".to_string(), "Country".to_string(), "Capital".to_string()]);
    assert_eq!(l.get_txt_categories_name(), vec!["Country".to_string(), "Capital".to_string()]);
    assert!(l.play_countries().is_empty());
    let (file, saved) = l.save_scores();
    assert!(file.is_none());
    assert!(saved.entries().is_empty());
    let l2 = AppLogic::new(infos(), vec!["Bob".to_string(), "Zoe".to_string()]);
    assert_eq!(l2.get_active_user(), "Bob");
}

#[test]
fn file_and_region_names() {
    assert_eq!(main_score_name(), "score_main.json");
    assert_eq!(choice_score_name(), "score_choice.json");
    assert_eq!(sub_cat_names(), vec!["World", "Africa", "Americas", "Asia", "Europe", "Oceania"]);
}

#[test]
fn config_keeps_un_members_of_region() {
    let mut l = logic();
    l.set_config(params(true, 0, false, 1));
    assert_eq!(names(&l), vec!["Albania", "Brazil", "Chile", "Nepal", "Vatican City"]);
    l.set_config(params(false, 4, true, 1));
    assert_eq!(names(&l), vec!["Albania", "Kosovo", "Vatican City"]);
    l.set_config(params(false, 2, false, 1));
    assert_eq!(names(&l), vec!["Brazil", "Chile"]);
    let (file, _) = l.save_scores();
    let file = file.unwrap();
    assert_eq!(file.user, "User 1");
    assert!(!file.main_play);
}

#[test]
fn score_filter_all_or_un_members() {
    let mut l = logic();
    l.score_filter_changed(true);
    assert_eq!(l.play_countries(), &vec![0, 1, 2, 3, 4, 5]);
    l.score_filter_changed(false);
    assert_eq!(l.play_countries(), &vec![0, 1, 2, 4, 5]);
}

#[test]
fn easy_first_orders_by_total_descending() {
    let l = flash_play(0);
    let n = names(&l);
    assert_eq!(n.len(), 5);
    assert_eq!(n[0], "Albania");
    let mut middle = vec![n[1].clone(), n[2].clone()];
    middle.sort();
    assert_eq!(middle, vec!["Chile", "Nepal"]);
    assert_eq!(n[3], "Brazil");
    assert_eq!(n[4], "Vatican City");
    assert_eq!(l.current_card(), 0);
}

#[test]
fn hard_first_orders_by_total_ascending() {
    let l = flash_play(2);
    let n = names(&l);
    assert_eq!(n[0], "Vatican City");
    assert_eq!(n[1], "Brazil");
    assert_eq!(n[4], "Albania");
}

#[test]
fn random_order_is_a_permutation() {
    let l = flash_play(1);
    let mut n = names(&l);
    n.sort();
    assert_eq!(n, vec!["Albania", "Brazil", "Chile", "Nepal", "Vatican City"]);
}

#[test]
fn order_by_total_is_stable() {
    let l = logic();
    let s = scores();
    // Chile (2) and Nepal (4) both total 7.
    let easy = order_by_total(&vec![4, 1, 2, 0], l.all_countries(), &s, true);
    assert_eq!(easy, vec![0, 4, 2, 1]);
    let hard = order_by_total(&vec![2, 4, 5], l.all_countries(), &s, false);
    assert_eq!(hard, vec![5, 2, 4]);
}

#[test]
fn flash_card_screen() {
    let l = flash_play(0);
    let (update, cats) = l.get_stat();
    match &update.info {
        TxtOrImg::Image(ImageLink::FilePath(p)) => assert_eq!(p, "albania.svg"),
        _ => panic!("the flag is shown"),
    }
    assert_eq!(update.num, 0);
    assert_eq!(update.out_of, 5);
    assert_eq!(update.score, 0);
    assert_eq!(update.last_score, 2);
    assert!(!update.seen);
    assert_eq!(cats[0].full, "Albania");
    assert_eq!(cats[0].category, "Country");
    assert_eq!(cats[0].first, "A...");
    assert!(cats[0].with_hint);
    assert_eq!(cats[1].full, "Tirana");
    assert_eq!(cats[1].category, "Capital");
    assert_eq!(cats[1].first, "");
    assert!(!cats[1].with_hint);
}

#[test]
fn answering_updates_the_score() {
    let mut l = flash_play(0);
    let (next, save) = l.next(3);
    assert!(save);
    let (update, _) = next.unwrap();
    assert_eq!(update.num, 1);
    let (_, saved) = l.save_scores();
    assert_eq!(saved.get(&"Albania".to_string()), Some(score(6, 13, 3)));
    assert_eq!(l.last_scores().get(&"Albania".to_string()), Some(3));
    // back to the first card, answered again: the new result replaces the old
    let (update, _) = l.prev().unwrap();
    assert_eq!(update.num, 0);
    assert_eq!(update.score, 3);
    assert!(update.seen);
    assert_eq!(update.last_score, 3);
    let (_, save) = l.next(2);
    assert!(save);
    let (_, saved) = l.save_scores();
    assert_eq!(saved.get(&"Albania".to_string()), Some(score(6, 12, 2)));
    assert_eq!(l.last_scores().get(&"Albania".to_string()), Some(2));
}

#[test]
fn answering_twice_the_same_changes_nothing_more() {
    let mut l = flash_play(0);
    l.next(4);
    l.prev();
    l.next(4);
    let (_, saved) = l.save_scores();
    assert_eq!(saved.get(&"Albania".to_string()), Some(score(6, 14, 4)));
}

#[test]
fn skipping_a_card_scores_zero_without_saving() {
    let mut l = flash_play(0);
    let (next, save) = l.next(0);
    assert!(!save);
    assert!(next.is_some());
    assert_eq!(l.last_scores().get(&"Albania".to_string()), Some(0));
    let (_, saved) = l.save_scores();
    assert_eq!(saved.get(&"Albania".to_string()), Some(score(5, 10, 2)));
}

#[test]
fn no_move_past_either_end() {
    let mut l = flash_play(0);
    assert!(l.prev().is_none());
    assert_eq!(l.current_card(), 0);
    for _ in 0..4 {
        assert!(l.next(1).0.is_some());
    }
    assert!(l.is_at_end());
    let (next, save) = l.next(5);
    assert!(next.is_none());
    assert!(save);
    assert_eq!(l.current_card(), 4);
}

#[test]
fn totals_stay_above_results() {
    let mut l = flash_play(2);
    // Vatican City first, total 1
    l.next(5);
    l.prev();
    l.next(1);
    l.prev();
    l.next(5);
    let (_, saved) = l.save_scores();
    assert_eq!(saved.get(&"Vatican City".to_string()), Some(score(2, 6, 5)));
}

#[test]
fn play_score_histogram() {
    let mut l = flash_play(0);
    l.next(3);
    l.next(0);
    l.next(3);
    l.next(5);
    let (counts, max) = l.get_play_scores(false);
    assert_eq!(counts, vec![1, 0, 0, 2, 0, 1]);
    assert_eq!(max, 2);
    let (counts, max) = l.get_play_scores(true);
    assert_eq!(counts, vec![1, 0, 0, 2, 0]);
    assert_eq!(max, 2);
    assert_eq!(counts.iter().sum::<i32>() + 1, 4);
}

fn choice_play(info_type: usize, guess_type: usize) -> AppLogic {
    let mut l = logic();
    l.set_config(params(false, 0, true, 1));
    l.prepare_choice_play(info_type, guess_type, scores());
    l
}

fn assert_choices(l: &mut AppLogic) -> Vec<usize> {
    assert!(l.guess_candidates().len() >= 3);
    let update = l.get_choices();
    assert_eq!(update.guesses.len(), 4);
    let correct = update.correct_guess as usize;
    assert!(correct < 4);
    let texts: Vec<String> = update
        .guesses
        .iter()
        .map(|g| match g {
            TxtOrImg::Text(t) => t.clone(),
            TxtOrImg::Image(_) => panic!("text answers"),
        })
        .collect();
    let cur = l.current_card();
    let own = l.all_countries()[l.play_countries()[cur]].infos[1].full.clone();
    assert_eq!(texts[correct], own);
    let mut distinct = texts.clone();
    distinct.sort();
    distinct.dedup();
    assert_eq!(distinct.len(), 4);
    texts.iter().map(|t| l.all_countries().iter().position(|c| &c.infos[1].full == t).unwrap()).collect()
}

#[test]
fn four_choices_show_different_answers() {
    let mut l = choice_play(0, 2);
    assert_choices(&mut l);
    // the choices of a card are drawn once
    let first = l.get_choices();
    let again = l.get_choices();
    assert_eq!(first.correct_guess, again.correct_guess);
    assert_eq!(first.guess_num, 0);
    assert_eq!(first.prev_guess, vec![false, false, false, false]);
    assert_eq!(first.out_of, 6);
    let cur = l.current_card();
    let name = l.all_countries()[l.play_countries()[cur]].infos[0].full.clone();
    assert_eq!(first.default_info, name);
}

#[test]
fn choice_default_info_hidden_when_name_is_asked() {
    let mut l = choice_play(1, 2);
    assert!(l.guess_candidates().len() >= 3);
    assert_eq!(l.get_choices().default_info, "");
}

#[test]
fn equal_answers_are_offered_once() {
    // Vatican City's capital is "Vatican City": as answers in the name
    // category, it and the country share no duplicate choice.
    let mut l = logic();
    l.set_config(params(false, 0, true, 1));
    l.prepare_choice_play(0, 1, scores());
    let cands = l.guess_candidates();
    let cur = l.current_card();
    assert!(!cands.contains(&cur));
    assert_eq!(cands.len(), 5);
}

#[test]
fn found_answer_scores_five_less_marks() {
    let mut l = choice_play(0, 2);
    assert_choices(&mut l);
    let cur = l.current_card();
    let name = l.all_countries()[l.play_countries()[cur]].infos[0].full.clone();
    let before = scores().get(&name).unwrap();
    let (update, save) = l.choice_changed(vec![true, false, false, false], true, true);
    assert!(save);
    let update = update.unwrap();
    assert_eq!(update.num, 1);
    let (_, saved) = l.save_scores();
    let after = saved.get(&name).unwrap();
    assert_eq!(after.time_played, before.time_played + 1);
    assert_eq!(after.total_score, before.total_score + 4);
    assert_eq!(after.last_score, 4);
    assert_eq!(l.last_scores().get(&name), Some(4));
    // back: the marks of the card are shown again
    let (update, save) = l.choice_changed(vec![false, false, false, false], false, false);
    assert!(!save);
    let update = update.unwrap();
    assert_eq!(update.prev_guess, vec![true, false, false, false]);
    assert_eq!(update.guess_num, 1);
}

#[test]
fn leaving_unfound_card_scores_zero_once() {
    let mut l = choice_play(0, 2);
    assert_choices(&mut l);
    let cur = l.current_card();
    let name = l.all_countries()[l.play_countries()[cur]].infos[0].full.clone();
    l.choice_changed(vec![true, true, false, false], true, false);
    assert_eq!(l.last_scores().get(&name), Some(0));
    let (back, _) = l.choice_changed(vec![], false, false);
    assert!(back.is_some());
    assert!(l.choice_changed(vec![], false, false).0.is_none());
}

#[test]
fn count_marks() {
    assert_eq!(count_marked(&vec![true, false, true, true]), 3);
    assert_eq!(count_marked(&vec![]), 0);
}

#[test]
fn search_is_case_insensitive() {
    let l = logic();
    assert_eq!(l.search_changed("BRA".to_string()), vec![false, true, false, false, false, false]);
    assert_eq!(l.search_changed("Al".to_string()), vec![true, false, false, false, true, false]);
    assert_eq!(l.search_changed(String::new()), vec![true; 6]);
}

#[test]
fn look_up_screen() {
    let mut l = logic();
    let mut main = scores();
    main.insert("Vatican City".to_string(), score(1, 3, 3));
    let choice = scores();
    let info = l.look_up_selected(5, &main, &choice);
    assert_eq!(info.name, "Vatican City");
    assert_eq!(info.text_infos.len(), 3);
    assert_eq!(info.text_infos[0].title, "Country");
    assert_eq!(info.text_infos[0].text, "Vatican City");
    assert_eq!(info.text_infos[1].title, "Capital");
    assert_eq!(info.text_infos[2].title, "UN Member");
    assert_eq!(info.text_infos[2].text, "Non-member but permanent observer state");
    assert_eq!(info.image_infos.len(), 1);
    assert_eq!(info.image_infos[0].title, "Flag");
    assert_eq!(info.score_free_play, 3);
    assert_eq!(info.score_choice_play, 1);
    assert_eq!(info.wiki_link, "https://en.wikipedia.org/wiki/Vatican City");
    assert_eq!(l.look_up_selected(3, &main, &choice).text_infos[2].text, "No");
    assert_eq!(l.look_up_selected(0, &main, &choice).text_infos[2].text, "Yes");
    l.set_config(params(true, 0, false, 0));
    l.prepare_main_play(0, [0, 1, 0], scores());
    assert_eq!(l.look_up_current(&main, &choice).name, "Albania");
}

#[test]
fn score_statistics() {
    let mut l = logic();
    l.score_filter_changed(true);
    let main = scores();
    let mut choice = NameMap::new();
    for n in ["Albania", "Brazil", "Chile", "Kosovo", "Nepal", "Vatican City"] {
        choice.insert(n.to_string(), score(2, 5, 4));
    }
    let stats = l.score_sub_cat_changed(0, &main, &choice);
    // averages: 10/5=2, 3/2=1.5->2, 7/2=3.5->4, none->0, 7/3=2.33->2, 1/1=1
    assert_eq!(stats.main_avg, [1, 1, 3, 0, 1, 0]);
    assert_eq!(stats.main_last, [1, 2, 1, 1, 1, 0]);
    assert_eq!(stats.main_max, 3);
    // 5/2 = 2.5 -> 3
    assert_eq!(stats.choice_avg, [0, 0, 0, 6, 0]);
    assert_eq!(stats.choice_last, [0, 0, 0, 0, 6]);
    assert_eq!(stats.choice_max, 6);
    let europe = l.score_sub_cat_changed(4, &main, &choice);
    assert_eq!(europe.main_last, [1, 1, 1, 0, 0, 0]);
    assert_eq!(europe.main_avg.iter().sum::<i32>(), 3);
}

#[test]
fn user_changes() {
    let mut l = logic();
    l.score_user_selected("Ann".to_string());
    assert_eq!(l.get_active_user(), "Ann");
    l.score_user_change("Bob".to_string(), false, &vec![]);
    assert_eq!(l.get_active_user(), "Bob");
    l.score_user_change("Bob".to_string(), true, &vec!["Ann".to_string(), "Cid".to_string()]);
    assert_eq!(l.get_active_user(), "Ann");
    l.score_user_change("Ann".to_string(), true, &vec!["Ann".to_string()]);
    assert_eq!(l.get_active_user(), "User 1");
    l.score_rename_user("User 1".to_string(), "Dee".to_string());
    assert_eq!(l.get_active_user(), "Dee");
}
