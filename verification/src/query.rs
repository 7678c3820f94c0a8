//! Where the audio comes from: a file, an address, or a search.

use vstd::prelude::*;
use vstd::string::*;

verus! {

/// What to ask the video service for.
#[derive(Debug)]
pub enum VideoQuery {
    /// The video at an address.
    Url(String),
    /// The first video that a search finds.
    Search(String),
}

/// Where the audio comes from.
#[derive(Debug)]
pub enum AudioSource {
    /// A file that is already there.
    File(String),
    /// A video whose audio is to be downloaded.
    Download(VideoQuery),
}

/// The address that a text denotes in its normal form, if it denotes one.
pub uninterp spec fn url_of(text: Seq<char>) -> Option<Seq<char>>;

/// Calls `url::Url::parse` and takes the text of the address it returns. Claimed of it: the
/// result depends on the text alone, and a text without a colon has no scheme and is therefore
/// no address. Which other texts are addresses, and what their normal form is, is left open.
#[verifier::external_body]
fn parse_url(text: &str) -> (r: Option<String>)
    ensures
        r is Some <==> url_of(text@) is Some,
        r is Some ==> r->0@ == url_of(text@)->0,
        r is Some ==> text@.contains(':'),
{
    match url::Url::parse(text) {
        Ok(url) => Some(String::from(url)),
        Err(_) => None,
    }
}

/// Whether `query` asks for the video at `url`, or searches for `text` where there is no address.
pub open spec fn asks_for(query: VideoQuery, text: Seq<char>, url: Option<Seq<char>>) -> bool {
    match query {
        VideoQuery::Url(address) => url is Some && address@ == url->0,
        VideoQuery::Search(words) => url is None && words@ == text,
    }
}

/// The query for a text, given the address that it denotes, if it denotes one.
pub fn query_for(text: String, url: Option<String>) -> (query: VideoQuery)
    ensures
        asks_for(
            query,
            text@,
            match url {
                Some(address) => Some(address@),
                None => None,
            },
        ),
{
    match url {
        Some(address) => VideoQuery::Url(address),
        None => VideoQuery::Search(text),
    }
}

/// Where the audio comes from for a text given on the command line, which may be the path of an
/// existing file, an address, or words to search for.
pub fn choose_source(text: String, exists: bool) -> (source: AudioSource)
    ensures
        match source {
            AudioSource::File(path) => exists && path@ == text@,
            AudioSource::Download(query) => !exists && asks_for(query, text@, url_of(text@)),
        },
        !exists && !text@.contains(':') ==> source->Download_0 is Search,
{
    if exists {
        AudioSource::File(text)
    } else {
        let url: Option<String> = parse_url(text.as_str());
        AudioSource::Download(query_for(text, url))
    }
}

/// The name under which audio is saved: the title of the video with the extension of its format.
pub fn audio_file_name(title: &str, extension: &str) -> (name: String)
    ensures
        name@ == title@ + seq!['.'] + extension@,
{
    proof {
        reveal_strlit(".");
        assert("."@ =~= seq!['.']);
    }
    let mut name: String = title.to_owned();
    name.append(".");
    name.append(extension);
    name
}

/// What a download does next.
#[derive(Clone, Copy, PartialEq, Eq, Structural, Debug)]
pub enum DownloadStep {
    /// Look for the download tool on this machine.
    Locate,
    /// Install the download tool.
    Install,
    /// Set the download tool up.
    Prepare,
    /// Ask for the video.
    Fetch,
    /// Update the download tool.
    Update,
    /// Ask for the video once more.
    Retry,
    /// Save the audio of the video.
    Save,
    /// The audio is there.
    Finished,
    /// The step that failed is what the download failed with.
    Failed,
}

impl DownloadStep {
    /// Whether nothing is left to do.
    pub open spec fn is_over(self) -> bool {
        self is Finished || self is Failed
    }

    /// The step that follows, given whether this one succeeded.
    pub open spec fn following(self, succeeded: bool) -> DownloadStep {
        match self {
            DownloadStep::Locate => if succeeded {
                DownloadStep::Prepare
            } else {
                DownloadStep::Install
            },
            DownloadStep::Install => if succeeded {
                DownloadStep::Prepare
            } else {
                DownloadStep::Failed
            },
            DownloadStep::Prepare => if succeeded {
                DownloadStep::Fetch
            } else {
                DownloadStep::Failed
            },
            DownloadStep::Fetch => if succeeded {
                DownloadStep::Save
            } else {
                DownloadStep::Update
            },
            DownloadStep::Update => DownloadStep::Retry,
            DownloadStep::Retry => if succeeded {
                DownloadStep::Save
            } else {
                DownloadStep::Failed
            },
            DownloadStep::Save => if succeeded {
                DownloadStep::Finished
            } else {
                DownloadStep::Failed
            },
            DownloadStep::Finished => DownloadStep::Finished,
            DownloadStep::Failed => DownloadStep::Failed,
        }
    }

    /// The step reached after steps that went as `outcomes` says.
    pub open spec fn reached(self, outcomes: Seq<bool>) -> DownloadStep
        decreases outcomes.len(),
    {
        if outcomes.len() == 0 {
            self
        } else {
            self.reached(outcomes.drop_last()).following(outcomes.last())
        }
    }

    /// The first step.
    pub fn first() -> (step: DownloadStep)
        ensures
            step == DownloadStep::Locate,
    {
        DownloadStep::Locate
    }

    /// The step that follows, given whether this one succeeded. The tool is installed only where
    /// it is not found. A video that cannot be fetched is asked for once more after an update of
    /// the tool, whether or not the update succeeded.
    pub fn after(self, succeeded: bool) -> (next: DownloadStep)
        ensures
            next == self.following(succeeded),
    {
        match self {
            DownloadStep::Locate => if succeeded {
                DownloadStep::Prepare
            } else {
                DownloadStep::Install
            },
            DownloadStep::Update => DownloadStep::Retry,
            DownloadStep::Fetch => if succeeded {
                DownloadStep::Save
            } else {
                DownloadStep::Update
            },
            DownloadStep::Finished => DownloadStep::Finished,
            _ => if !succeeded {
                DownloadStep::Failed
            } else {
                match self {
                    DownloadStep::Install => DownloadStep::Prepare,
                    DownloadStep::Prepare => DownloadStep::Fetch,
                    DownloadStep::Retry => DownloadStep::Save,
                    DownloadStep::Save => DownloadStep::Finished,
                    _ => DownloadStep::Failed,
                }
            },
        }
    }
}

/// How many of the steps that went as `outcomes` says asked for the video.
pub open spec fn requests(outcomes: Seq<bool>) -> nat
    decreases outcomes.len(),
{
    if outcomes.len() == 0 {
        0
    } else {
        let step = DownloadStep::Locate.reached(outcomes.drop_last());
        requests(outcomes.drop_last()) + (if step is Fetch || step is Retry {
            1nat
        } else {
            0nat
        })
    }
}

/// How far a download has come.
spec fn progress(step: DownloadStep) -> nat {
    match step {
        DownloadStep::Locate => 0,
        DownloadStep::Install => 1,
        DownloadStep::Prepare => 2,
        DownloadStep::Fetch => 3,
        DownloadStep::Update => 4,
        DownloadStep::Retry => 5,
        DownloadStep::Save => 6,
        DownloadStep::Finished => 7,
        DownloadStep::Failed => 7,
    }
}

/// Every step brings a download closer to its end.
proof fn lemma_progress(outcomes: Seq<bool>)
    ensures
        ({
            let step = DownloadStep::Locate.reached(outcomes);
            step.is_over() || progress(step) >= outcomes.len()
        }),
        ({
            let step = DownloadStep::Locate.reached(outcomes);
            requests(outcomes) <= (if progress(step) <= 3 {
                0nat
            } else if progress(step) <= 5 {
                1nat
            } else {
                2nat
            })
        }),
    decreases outcomes.len(),
{
    if outcomes.len() > 0 {
        lemma_progress(outcomes.drop_last());
    }
}

/// However its steps go, a download is over after at most seven of them, and has asked for the
/// video at most twice.
pub proof fn law_download_ends(outcomes: Seq<bool>)
    ensures
        outcomes.len() >= 7 ==> DownloadStep::Locate.reached(outcomes).is_over(),
        requests(outcomes) <= 2,
{
    lemma_progress(outcomes);
    if outcomes.len() >= 7 {
        let step: DownloadStep = DownloadStep::Locate.reached(outcomes);
        assert(progress(step) >= 7 || step.is_over());
    }
}

/// A video that cannot be fetched at first is still saved if it can be fetched after the update,
/// even where the update fails.
pub proof fn law_failed_fetch_is_retried(updated: bool)
    ensures
        DownloadStep::Fetch.reached(seq![false, updated, true, true]) is Finished,
        DownloadStep::Fetch.reached(seq![false, updated, false]) is Failed,
{
    reveal_with_fuel(DownloadStep::reached, 5);
    let saved: Seq<bool> = seq![false, updated, true, true];
    assert(saved.drop_last() =~= seq![false, updated, true]);
    assert(seq![false, updated, true].drop_last() =~= seq![false, updated]);
    assert(seq![false, updated, false].drop_last() =~= seq![false, updated]);
    assert(seq![false, updated].drop_last() =~= seq![false]);
    assert(seq![false].drop_last() =~= Seq::<bool>::empty());
}

} // verus!
