//! How a procedural signal is named.

use crate::text::{
    after_prefix, law_a_prefix_and_the_rest_make_the_text, same_text, strip_prefix,
};
use vstd::prelude::*;
use vstd::string::*;

verus! {

/// What a signal is encoded as.
#[derive(Clone, Copy, Debug, PartialEq, Eq, Structural)]
pub enum SignalFormat {
    Wav,
    Mp3,
    Flac,
    Aac,
    M4a,
}

impl SignalFormat {
    pub open spec fn ext(self) -> Seq<char> {
        match self {
            SignalFormat::Wav => "wav"@,
            SignalFormat::Mp3 => "mp3"@,
            SignalFormat::Flac => "flac"@,
            SignalFormat::Aac => "aac"@,
            SignalFormat::M4a => "m4a"@,
        }
    }

    /// The extension that a path to such a signal ends with.
    pub fn path_ext(&self) -> (ext: &'static str)
        ensures
            ext@ == self.ext(),
    {
        match self {
            SignalFormat::Wav => "wav",
            SignalFormat::Mp3 => "mp3",
            SignalFormat::Flac => "flac",
            SignalFormat::Aac => "aac",
            SignalFormat::M4a => "m4a",
        }
    }
}

/// The encoding that an extension names.
pub fn format_of_ext(ext: &str) -> (format: Option<SignalFormat>)
    ensures
        match format {
            Some(format) => format.ext() == ext@,
            None => forall|format: SignalFormat| #[trigger] format.ext() != ext@,
        },
{
    let all = [
        SignalFormat::Wav,
        SignalFormat::Mp3,
        SignalFormat::Flac,
        SignalFormat::Aac,
        SignalFormat::M4a,
    ];
    let mut i: usize = 0;
    while i < 5
        invariant
            i <= 5,
            all@ == seq![
                SignalFormat::Wav,
                SignalFormat::Mp3,
                SignalFormat::Flac,
                SignalFormat::Aac,
                SignalFormat::M4a,
            ],
            forall|k: int| 0 <= k < i ==> (#[trigger] all@[k]).ext() != ext@,
        decreases 5 - i,
    {
        if same_text(ext, all[i].path_ext()) {
            return Some(all[i]);
        }
        i += 1;
    }
    assert forall|format: SignalFormat| #[trigger] format.ext() != ext@ by {
        assert(all@[0].ext() != ext@ && all@[1].ext() != ext@ && all@[2].ext() != ext@
            && all@[3].ext() != ext@ && all@[4].ext() != ext@);
    }
    None
}

/// Which signal it is. The frequency of a sine is the bit pattern of its 64-bit
/// float.
#[derive(Clone, Copy, Debug, PartialEq, Eq, Structural)]
pub enum SignalKind {
    Sawtooth,
    SawtoothDescending,
    Sine { freq_bits: u64 },
    Silence,
}

impl SignalKind {
    pub open spec fn segment(self) -> Seq<char> {
        match self {
            SignalKind::Sawtooth => "sawtooth"@,
            SignalKind::SawtoothDescending => "sawtooth-desc"@,
            SignalKind::Sine { .. } => "sine"@,
            SignalKind::Silence => "silence"@,
        }
    }

    /// The part of a path that names the kind.
    pub fn path_segment(&self) -> (segment: &'static str)
        ensures
            segment@ == self.segment(),
    {
        match self {
            SignalKind::Sawtooth => "sawtooth",
            SignalKind::SawtoothDescending => "sawtooth-desc",
            SignalKind::Sine { .. } => "sine",
            SignalKind::Silence => "silence",
        }
    }
}

/// The kind that a part of a path names; a sine is one of this frequency.
pub fn kind_of_segment(segment: &str, freq_bits: u64) -> (kind: Option<SignalKind>)
    ensures
        match kind {
            Some(kind) => {
                &&& kind.segment() == segment@
                &&& kind matches SignalKind::Sine { freq_bits: named } ==> named == freq_bits
            },
            None => forall|kind: SignalKind| #[trigger] kind.segment() != segment@,
        },
{
    let sine = SignalKind::Sine { freq_bits };
    if same_text(segment, SignalKind::Sawtooth.path_segment()) {
        Some(SignalKind::Sawtooth)
    } else if same_text(segment, SignalKind::SawtoothDescending.path_segment()) {
        Some(SignalKind::SawtoothDescending)
    } else if same_text(segment, sine.path_segment()) {
        Some(sine)
    } else if same_text(segment, SignalKind::Silence.path_segment()) {
        Some(SignalKind::Silence)
    } else {
        None
    }
}

/// What every path to a signal of one kind begins with.
pub open spec fn kind_prefix(kind: SignalKind) -> Seq<char> {
    "/signal/"@ + kind.segment() + "/"@
}

/// Where the signal registered under `token` is served.
pub open spec fn signal_token_path(
    kind: SignalKind,
    token: Seq<char>,
    format: SignalFormat,
) -> Seq<char> {
    kind_prefix(kind) + token + "."@ + format.ext()
}

fn kind_prefix_text(kind: &SignalKind) -> (prefix: String)
    ensures
        prefix@ == kind_prefix(*kind),
{
    let mut prefix = String::from_str("/signal/");
    prefix.append(kind.path_segment());
    prefix.append("/");
    prefix
}

/// Where the signal registered under `token` is served.
pub fn signal_path_from_token(kind: &SignalKind, token: &str, format: &SignalFormat) -> (path:
    String)
    ensures
        path@ == signal_token_path(*kind, token@, *format),
{
    let mut path = kind_prefix_text(kind);
    path.append(token);
    path.append(".");
    path.append(format.path_ext());
    path
}

/// What is left of a path to a signal behind its kind: none for a path to
/// something else.
pub fn spec_with_ext(kind: &SignalKind, path: &str) -> (rest: Option<String>)
    ensures
        match rest {
            Some(rest) => after_prefix(path@, kind_prefix(*kind)) == Some(rest@),
            None => after_prefix(path@, kind_prefix(*kind)) is None,
        },
{
    let prefix = kind_prefix_text(kind);
    strip_prefix(path, prefix.as_str())
}

/// No two formats share an extension, so a format is found by its own.
pub proof fn law_every_format_has_its_own_extension(format: SignalFormat, other: SignalFormat)
    ensures
        format.ext() == other.ext() ==> format == other,
{
    reveal_strlit("wav");
    reveal_strlit("mp3");
    reveal_strlit("flac");
    reveal_strlit("aac");
    reveal_strlit("m4a");
    if format.ext() == other.ext() {
        assert(format.ext().len() == other.ext().len());
        assert(format.ext()[0] == other.ext()[0]);
        assert(format.ext()[1] == other.ext()[1]);
    }
}

/// No two kinds share the part of a path that names them, but for sines, which
/// share one whatever their frequency.
pub proof fn law_every_kind_has_its_own_segment(kind: SignalKind, other: SignalKind)
    ensures
        kind.segment() == other.segment() ==> kind == other || (kind is Sine && other is Sine),
        kind is Sine && other is Sine ==> kind.segment() == other.segment(),
{
    reveal_strlit("sawtooth");
    reveal_strlit("sawtooth-desc");
    reveal_strlit("sine");
    reveal_strlit("silence");
    if kind.segment() == other.segment() {
        assert(kind.segment().len() == other.segment().len());
    }
}

/// The path of a registered signal is that of its kind, and behind that come the
/// token and the extension of its format.
pub proof fn law_a_signal_path_names_its_parts(
    kind: SignalKind,
    token: Seq<char>,
    format: SignalFormat,
)
    ensures
        after_prefix(signal_token_path(kind, token, format), kind_prefix(kind)) == Some(
            token + "."@ + format.ext(),
        ),
        after_prefix(signal_token_path(kind, token, format), "/signal/"@) == Some(
            kind.segment() + "/"@ + token + "."@ + format.ext(),
        ),
{
    let path = signal_token_path(kind, token, format);
    let rest = token + "."@ + format.ext();
    assert(path =~= kind_prefix(kind) + rest);
    law_a_prefix_and_the_rest_make_the_text(kind_prefix(kind), rest, path);
    let behind = kind.segment() + "/"@ + token + "."@ + format.ext();
    assert(path =~= "/signal/"@ + behind);
    law_a_prefix_and_the_rest_make_the_text("/signal/"@, behind, path);
}

} // verus!
