use elastic_player::convert::{
    conversion_result, convert_to_wav, Argument, Conversion, ConversionError,
};
use elastic_player::query::{
    audio_file_name, choose_source, query_for, AudioSource, DownloadStep, VideoQuery,
};

fn source(text: &str, exists: bool) -> AudioSource {
    choose_source(text.to_string(), exists)
}

#[test]
fn files_that_exist_are_played() {
    match source("https://example.net/a.mp3", true) {
        AudioSource::File(path) => assert_eq!(path, "https://example.net/a.mp3"),
        other => panic!("{other:?}"),
    }
}

#[test]
fn addresses_are_downloaded_in_their_normal_form() {
    match source("HTTPS://Example.NET/watch?v=x y", false) {
        AudioSource::Download(VideoQuery::Url(url)) => {
            assert_eq!(url, "https://example.net/watch?v=x%20y")
        }
        other => panic!("{other:?}"),
    }
    match source("  https://example.net  ", false) {
        AudioSource::Download(VideoQuery::Url(url)) => assert_eq!(url, "https://example.net/"),
        other => panic!("{other:?}"),
    }
}

#[test]
fn anything_else_is_searched_for() {
    let texts = [
        "moonlight sonata", "", "etude.mp3", "https//example.net", "9: nocturne", "http://",
    ];
    for text in texts {
        match source(text, false) {
            AudioSource::Download(VideoQuery::Search(words)) => assert_eq!(words, text),
            other => panic!("{other:?}"),
        }
    }
}

#[test]
fn queries_go_by_the_address_if_there_is_one() {
    match query_for("a".to_string(), Some("b:".to_string())) {
        VideoQuery::Url(url) => assert_eq!(url, "b:"),
        other => panic!("{other:?}"),
    }
    match query_for("a".to_string(), None) {
        VideoQuery::Search(words) => assert_eq!(words, "a"),
        other => panic!("{other:?}"),
    }
}

#[test]
fn audio_is_named_after_the_video() {
    assert_eq!(audio_file_name("Für Elise", "m4a"), "Für Elise.m4a");
}

fn run(outcomes: &[bool]) -> Vec<DownloadStep> {
    let mut step = DownloadStep::first();
    let mut steps = vec![step];
    for outcome in outcomes {
        step = step.after(*outcome);
        steps.push(step);
    }
    steps
}

#[test]
fn downloads_that_go_well() {
    assert_eq!(
        run(&[true, true, true, true]),
        [
            DownloadStep::Locate,
            DownloadStep::Prepare,
            DownloadStep::Fetch,
            DownloadStep::Save,
            DownloadStep::Finished,
        ]
    );
}

#[test]
fn missing_tools_are_installed() {
    assert_eq!(run(&[false, true]).last(), Some(&DownloadStep::Prepare));
    assert_eq!(run(&[false, false]).last(), Some(&DownloadStep::Failed));
    assert_eq!(run(&[false])[1], DownloadStep::Install);
}

#[test]
fn failed_fetches_are_tried_again_after_an_update() {
    for updated in [false, true] {
        let steps = run(&[true, true, false, updated, true, true]);
        assert_eq!(steps[3], DownloadStep::Update);
        assert_eq!(steps[4], DownloadStep::Retry);
        assert_eq!(steps[5], DownloadStep::Save);
        assert_eq!(steps[6], DownloadStep::Finished);
        let steps = run(&[true, true, false, updated, false]);
        assert_eq!(steps[5], DownloadStep::Failed);
    }
}

#[test]
fn failures_end_a_download() {
    assert_eq!(run(&[true, false])[2], DownloadStep::Failed);
    assert_eq!(run(&[true, true, true, false])[4], DownloadStep::Failed);
    assert_eq!(DownloadStep::Failed.after(true), DownloadStep::Failed);
    assert_eq!(DownloadStep::Finished.after(false), DownloadStep::Finished);
}

#[test]
fn downloads_end_whatever_happens() {
    for bits in 0..128u32 {
        let outcomes: Vec<bool> = (0..7).map(|i| bits >> i & 1 == 1).collect();
        let steps = run(&outcomes);
        assert!(matches!(
            steps[7],
            DownloadStep::Finished | DownloadStep::Failed
        ));
        let requests = steps[..7]
            .iter()
            .filter(|s| matches!(s, DownloadStep::Fetch | DownloadStep::Retry))
            .count();
        assert!(requests <= 2);
    }
}

fn arguments(start: Option<&str>, end: Option<&str>) -> Vec<String> {
    let conversion = convert_to_wav(
        true,
        false,
        start.map(|s| s.to_string()),
        end.map(|s| s.to_string()),
    );
    match conversion {
        Ok(Conversion::Run(args)) => args
            .into_iter()
            .map(|arg| match arg {
                Argument::Text(text) => text,
                Argument::Source => "SOURCE".to_string(),
                Argument::Output => "OUTPUT".to_string(),
            })
            .collect(),
        other => panic!("{other:?}"),
    }
}

#[test]
fn whole_tracks_are_converted() {
    assert_eq!(
        arguments(None, None),
        ["-hide_banner", "-v", "error", "-y", "-i", "SOURCE", "OUTPUT"]
    );
}

#[test]
fn tracks_are_cropped() {
    assert_eq!(
        arguments(Some("1.5"), Some("90")),
        [
            "-hide_banner", "-v", "error", "-y", "-ss", "1.5", "-to", "90", "-i", "SOURCE", "OUTPUT"
        ]
    );
    assert_eq!(
        arguments(None, Some("90")),
        ["-hide_banner", "-v", "error", "-y", "-to", "90", "-i", "SOURCE", "OUTPUT"]
    );
    assert_eq!(
        arguments(Some("3"), None),
        ["-hide_banner", "-v", "error", "-y", "-ss", "3", "-i", "SOURCE", "OUTPUT"]
    );
}

#[test]
fn converted_tracks_are_used_as_they_are() {
    assert!(matches!(convert_to_wav(true, true, None, None), Ok(Conversion::Reuse)));
    let cropped = convert_to_wav(true, true, Some("1".to_string()), None);
    assert!(matches!(cropped, Ok(Conversion::Run(_))));
}

#[test]
fn missing_sources_are_refused() {
    let error = convert_to_wav(false, true, None, None).unwrap_err();
    assert_eq!(error, ConversionError::InvalidSource);
    assert_eq!(error.message(""), "Invalid path to source audio");
}

#[test]
fn failed_conversions_are_reported() {
    assert_eq!(conversion_result(true), Ok(()));
    let error = conversion_result(false).unwrap_err();
    assert_eq!(error, ConversionError::ConverterFailed);
    assert_eq!(
        error.message("exit status: 1"),
        "ffmpeg exited with status exit status: 1"
    );
}
