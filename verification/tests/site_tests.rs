use chattiness::line_parser::LineParser;
use chattiness::site::Site;
use chattiness::words::count_words;

#[test]
fn line_parser_test_site_new() -> Result<(), String> {
    let line_test = r#"{"texts": ["Legality of collecting/distributing a dataset of screenshots of websites", "I'm doing a research project where I want to collect thousands of screenshots of different websites, for training/testing of image models. Ultimately, I am trying to create a dataset that I can present and distribute to the community at various conferences/symposia.\n\nMy primary concern is how legal this might be. My assumption would be that taking a screenshot of websites of private companies like newyorktimes.com would be some sort of copyright violation, but that may be a faulty assumption.\n\nI'm also unclear as to grey areas like:\n\n\nreddit:  user provided content\ntwitter: user provided content\nwikipedia:   open source knowledge base\ngoogle:  content scraped/sourced from other providers\n\n\nEssentially, what copyright considerations, if any, would I have to keep in mind when collecting, annotating and distributing screenshots? How might licensing/attribution work when making this data publically available to others for use?"], "tags": ["data", "license"]}"#;
    let parsed_line_test: LineParser =
        LineParser::parse(line_test).expect("ERROR: couldn't get the LineParser from the line.");

    assert!(parsed_line_test.texts.len() == 2 && parsed_line_test.tags.len() == 2);
    Ok(())
}

#[test]
fn test_site_new() -> Result<(), String> {
    let site = Site::new();

    assert!(
        site.questions == 0 && site.words == 0 && site.tags.len() == 0
            && site.chatty_tags.len() == 0
    );
    Ok(())
}

#[test]
fn test_site_from_line() -> Result<(), String> {
    let line_test = r#"{"texts": ["Reasonable to exclude a specific professor from a thesis defense for personal reasons?", "When I started my Master's program, my supervisor was Professor X. However, I had to leave their group after a few months, partly because we didn't get along, but also because the research topic wasn't a good fit.\nPresently, my supervisor is Professor Y (who is awesome, and with whom I performed research work that really interested me). Now, I am getting ready to defend my thesis and need to select professors for the defense committee.\nIt so happens that my current thesis research deals tangentially with Professor X's research focus from about 5 years ago (and by the way, there aren't many professors whose research directly relates to my thesis). Under normal circumstances, Professor X would have been a decent choice for my defense committee.\nHere is where I need a gut-check: I personally do not want Professor X on my defense committee. It is unlikely that they would try to sabotage my defense, but I have always found it distressing to be in Professor X's presence. Yes, I could grin and bear it, but I would simply rather not do that. Is it reasonable to request that Professor X be excluded?"], "tags": ["masters", "thesis-committee", "defense"]}"#;
    let parsed_line_test: LineParser =
        LineParser::parse(line_test).expect("ERROR: couldn't get the LineParser from the line.");
    let site = Site::from_line(parsed_line_test);

    assert!(
        site.questions == 1 && site.words == 206 && site.tags.len() == 3
            && site.chatty_tags.len() == 0
    );
    Ok(())
}

#[test]
fn test_site_sum() -> Result<(), String> {
    let line_test1 = r#"{"texts": ["Reasonable to exclude a specific professor from a thesis defense for personal reasons?", "When I started my Master's program, my supervisor was Professor X. However, I had to leave their group after a few months, partly because we didn't get along, but also because the research topic wasn't a good fit.\nPresently, my supervisor is Professor Y (who is awesome, and with whom I performed research work that really interested me). Now, I am getting ready to defend my thesis and need to select professors for the defense committee.\nIt so happens that my current thesis research deals tangentially with Professor X's research focus from about 5 years ago (and by the way, there aren't many professors whose research directly relates to my thesis). Under normal circumstances, Professor X would have been a decent choice for my defense committee.\nHere is where I need a gut-check: I personally do not want Professor X on my defense committee. It is unlikely that they would try to sabotage my defense, but I have always found it distressing to be in Professor X's presence. Yes, I could grin and bear it, but I would simply rather not do that. Is it reasonable to request that Professor X be excluded?"], "tags": ["masters", "thesis-committee", "defense"]}"#;
    let parsed_line_test1: LineParser =
        LineParser::parse(line_test1).expect("ERROR: couldn't get the LineParser from the line.");
    let mut site1 = Site::from_line(parsed_line_test1);

    let line_test2 = r#"{"texts": ["Legality of collecting/distributing a dataset of screenshots of websites", "I'm doing a research project where I want to collect thousands of screenshots of different websites, for training/testing of image models. Ultimately, I am trying to create a dataset that I can present and distribute to the community at various conferences/symposia.\n\nMy primary concern is how legal this might be. My assumption would be that taking a screenshot of websites of private companies like newyorktimes.com would be some sort of copyright violation, but that may be a faulty assumption.\n\nI'm also unclear as to grey areas like:\n\n\nreddit:  user provided content\ntwitter: user provided content\nwikipedia:   open source knowledge base\ngoogle:  content scraped/sourced from other providers\n\n\nEssentially, what copyright considerations, if any, would I have to keep in mind when collecting, annotating and distributing screenshots? How might licensing/attribution work when making this data publically available to others for use?"], "tags": ["data", "license"]}"#;
    let parsed_line_test2: LineParser =
        LineParser::parse(line_test2).expect("ERROR: couldn't get the LineParser from the line.");
    let site2 = Site::from_line(parsed_line_test2);

    site1.sum(&site2);

    assert!(
        site1.questions == 2 && site1.words == 354 && site1.tags.len() == 5
            && site1.chatty_tags.len() == 0
    );
    Ok(())
}

#[test]
fn word_count_joins_texts_with_spaces() {
    let texts = vec!["a b".to_string(), "c".to_string()];
    assert_eq!(count_words(&texts), 3);
}

#[test]
fn word_count_collapses_whitespace_runs() {
    let texts = vec!["  a \t b  ".to_string(), "".to_string(), "c d".to_string()];
    assert_eq!(count_words(&texts), 4);
}

#[test]
fn duplicate_tags_collapse() {
    let line = r#"{"texts": ["one two"], "tags": ["t", "t"]}"#;
    let parsed = LineParser::parse(line).expect("ERROR: couldn't get the LineParser from the line.");
    let site = Site::from_line(parsed);
    assert!(site.questions == 1 && site.words == 2 && site.tags.len() == 1);
}
