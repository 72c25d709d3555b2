//! How several downloads of one episode are merged into one output.
use crate::text::same_chars;
use vstd::prelude::*;

verus! {

/// Which streams are kept when several versions of an episode are merged.
#[derive(Clone, Debug, PartialEq, Eq, Structural)]
pub enum MergeBehavior {
    Video,
    Audio,
    Auto,
}

/// What `str::to_lowercase` makes of a string.
pub uninterp spec fn lower_of(s: Seq<char>) -> Seq<char>;

/// Relies on `str::to_lowercase`: the result depends on the characters alone.
#[verifier::external_body]
fn lowercase(s: &str) -> (r: String)
    ensures
        r@ == lower_of(s@),
{
    s.to_lowercase()
}

/// The behavior named by an already lower-cased word, if any.
pub open spec fn behavior_named(word: Seq<char>) -> Option<MergeBehavior> {
    if word == "video"@ {
        Some(MergeBehavior::Video)
    } else if word == "audio"@ {
        Some(MergeBehavior::Audio)
    } else if word == "auto"@ {
        Some(MergeBehavior::Auto)
    } else {
        None
    }
}

/// The message given for a word that names no behavior.
pub open spec fn invalid_message(s: Seq<char>) -> Seq<char> {
    "'"@ + s + "' is not a valid merge behavior"@
}

impl MergeBehavior {
    /// Parses a merge behavior whose name has already been lower-cased;
    /// `original` is the text as given, for the error message.
    pub fn parse_lowered(lowered: &str, original: &str) -> (r: Result<MergeBehavior, String>)
        ensures
            match behavior_named(lowered@) {
                Some(b) => r == Ok::<MergeBehavior, String>(b),
                None => r is Err && r->Err_0@ == invalid_message(original@),
            },
    {
        if same_chars(lowered, "video") {
            Ok(MergeBehavior::Video)
        } else if same_chars(lowered, "audio") {
            Ok(MergeBehavior::Audio)
        } else if same_chars(lowered, "auto") {
            Ok(MergeBehavior::Auto)
        } else {
            let mut msg = String::from_str("'");
            msg.append(original);
            msg.append("' is not a valid merge behavior");
            Err(msg)
        }
    }

    /// Parses a merge behavior by name, ignoring case.
    pub fn parse(s: &str) -> (r: Result<MergeBehavior, String>)
        ensures
            match behavior_named(lower_of(s@)) {
                Some(b) => r == Ok::<MergeBehavior, String>(b),
                None => r is Err && r->Err_0@ == invalid_message(s@),
            },
    {
        let lowered = lowercase(s);
        MergeBehavior::parse_lowered(lowered.as_str(), s)
    }
}

} // verus!
