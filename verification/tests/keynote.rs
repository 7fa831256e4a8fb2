use iwork::keynote::{self, Presentation, Slide};
use iwork::Error;

fn make_presentation(theme: &str, slides: Vec<(&str, Vec<&str>)>) -> Presentation {
    let mut p = Presentation::default();
    p.set_theme_name(Some(theme.to_owned()));
    for (title, frags) in slides {
        let s = Slide::new_real(title, frags.into_iter().map(ToOwned::to_owned).collect());
        p.add_slide(s);
    }
    p
}

#[test]
fn presentation_round_trips_theme_name() -> Result<(), Error> {
    let p = make_presentation("Blueprint", vec![]);
    let bytes = p.to_keynote_bytes()?;
    let doc = keynote::Document::from_bytes(bytes)?;
    let decoded = doc.presentation()?;
    assert_eq!(decoded.theme_name(), Some("Blueprint"));
    Ok(())
}

#[test]
fn presentation_round_trips_slide_title() -> Result<(), Error> {
    let p = make_presentation("Basic", vec![("My Title", vec!["My Title", "Some body text"])]);
    let bytes = p.to_keynote_bytes()?;
    let doc = keynote::Document::from_bytes(bytes)?;
    let decoded = doc.presentation()?;
    let real_slides: Vec<_> = decoded.slides().iter().filter(|s| !s.is_template()).collect();
    assert_eq!(real_slides.len(), 1);
    assert_eq!(real_slides[0].title(), Some("My Title"));
    assert!(real_slides[0].text_fragments().contains(&"Some body text".to_owned()));
    Ok(())
}

#[test]
fn written_slides_are_sorted_by_path_and_keep_their_text() -> Result<(), Error> {
    let p = make_presentation(
        "Basic",
        vec![
            ("One", vec!["One", "first\nsecond"]),
            ("", vec!["  body only  "]),
        ],
    );
    let decoded = keynote::Document::from_bytes(p.to_keynote_bytes()?)?.presentation()?;
    let paths: Vec<&str> = decoded.slides().iter().map(|s| s.path()).collect();
    assert_eq!(paths, vec!["Index/Slide-1.iwa", "Index/Slide-2.iwa", "Index/TemplateSlide-1.iwa"]);
    let first = &decoded.slides()[0];
    assert_eq!(first.title(), Some("One"));
    assert_eq!(first.text_fragments(), &["One".to_owned(), "first".to_owned(), "second".to_owned()]);
    assert!(first.speaker_notes().is_none());
    assert!(first.layout_name().is_none());
    assert!(first.media_descriptions().is_empty());
    let second = &decoded.slides()[1];
    assert_eq!(second.title(), None);
    assert_eq!(second.text_fragments(), &["body only".to_owned()]);
    assert!(decoded.slides()[2].is_template());
    Ok(())
}

#[test]
fn semantic_slides_keep_the_text_of_each_slide_archive() -> Result<(), Error> {
    let p = make_presentation("Basic", vec![("Hello", vec!["Hello", "World"])]);
    let doc = keynote::Document::from_bytes(p.to_keynote_bytes()?)?;
    let semantic = keynote::SemanticPresentation::from_package(doc.package())?;
    let paths: Vec<&str> = semantic.slides().iter().map(|s| s.path()).collect();
    assert!(paths.contains(&"Index/Slide-1.iwa"));
    for slide in semantic.slides() {
        assert!(!slide.text_fragments().is_empty());
        assert_eq!(slide.is_template(), slide.path().contains("TemplateSlide"));
        assert!(slide.title().is_none());
        assert!(slide.layout_name().is_none());
        assert!(slide.media_descriptions().is_empty());
    }
    let first = semantic.slides().iter().find(|s| s.path() == "Index/Slide-1.iwa").unwrap();
    // The walk reads the body as one field stream: the title object's text is
    // found, and the framing of the next object record ends the walk.
    assert_eq!(first.text_fragments(), &["Hello".to_owned()]);
    Ok(())
}

#[test]
fn ten_slides_come_back_in_the_order_they_were_added() -> Result<(), Error> {
    let mut p = Presentation::default();
    for i in 1..=10 {
        let title = format!("S{i}");
        p.add_slide(Slide::new_real(&title, vec![title.clone()]));
    }
    let d = keynote::Document::from_bytes(p.to_keynote_bytes()?)?.presentation()?;
    let titles: Vec<Option<&str>> = d.slides().iter().filter(|s| !s.is_template()).map(|s| s.title()).collect();
    let expected: Vec<String> = (1..=10).map(|i| format!("S{i}")).collect();
    assert_eq!(titles, expected.iter().map(|s| Some(s.as_str())).collect::<Vec<_>>());
    assert_eq!(d.slides()[0].path(), "Index/Slide-01.iwa");
    Ok(())
}

#[test]
fn slides_have_no_layout_name_yet() -> Result<(), Error> {
    let p = make_presentation("Basic", vec![("Title", vec!["Title"])]);
    let d = keynote::Document::from_bytes(p.to_keynote_bytes()?)?.presentation()?;
    assert!(d.slides().iter().all(|s| s.layout_name().is_none()));
    Ok(())
}

#[test]
fn a_document_re_encodes_through_its_presentation() -> Result<(), Error> {
    let p = make_presentation("Blueprint", vec![("Hello", vec!["Hello", "World"])]);
    let doc = keynote::Document::from_bytes(p.to_keynote_bytes()?)?;
    let again = keynote::Document::from_bytes(doc.to_bytes()?)?.presentation()?;
    assert_eq!(again.theme_name(), Some("Blueprint"));
    let first = &again.slides()[0];
    assert_eq!(first.title(), Some("Hello"));
    assert_eq!(first.text_fragments(), &["Hello".to_owned(), "World".to_owned()]);
    Ok(())
}
