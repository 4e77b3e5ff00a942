//! Track-level metadata of an MP4 buffer, read through the `mp4parse` crate,
//! and the file-name test that selects which files get metadata.
use vstd::prelude::*;

verus! {

#[verifier::external_type_specification]
#[verifier::external_body]
pub struct ExMp4ParseError(mp4parse::Error);

/// The kind of a track, one variant for each of `mp4parse::TrackType`'s.
#[derive(Clone, Copy, Debug, PartialEq, Eq, Structural)]
pub enum TrackKind {
    Audio,
    Video,
    Picture,
    AuxiliaryVideo,
    Metadata,
    Unknown,
}

/// What the metadata summary reads of one parsed track: its kind, and the
/// values of its media duration and of its media timescale when present.
#[derive(Clone, Copy, Debug, PartialEq, Eq, Structural)]
pub struct TrackInfo {
    pub kind: TrackKind,
    pub duration: Option<u64>,
    pub timescale: Option<u64>,
}

/// A track duration as `units` ticks of a clock running at `timescale`
/// ticks per second.
#[derive(Clone, Copy, Debug, PartialEq, Eq, Structural)]
pub struct ScaledDuration {
    pub units: u64,
    pub timescale: u64,
}

/// The summary of a parsed MP4: the duration of the first video track (when
/// that track records both a duration and a timescale), the codec (never
/// filled in), whether any audio track exists, and the number of tracks.
#[derive(Clone, Debug)]
pub struct ParsedMetadata {
    pub duration: Option<ScaledDuration>,
    pub video_codec: Option<String>,
    pub has_audio: bool,
    pub track_count: usize,
}

/// The tracks, in file order, that `mp4parse::read_mp4` finds in `bytes`;
/// `None` when the bytes make it report an error other than running out of
/// memory.
pub uninterp spec fn mp4_tracks(bytes: Seq<u8>) -> Option<Seq<TrackInfo>>;

/// How reading an MP4 buffer failed: the parser ran out of memory, or it
/// found the bytes invalid or unsupported.
pub enum Mp4ReadError {
    OutOfMemory(mp4parse::Error),
    Invalid(mp4parse::Error),
}

/// Calls `mp4parse::read_mp4` on the bytes and lists its tracks.  Claimed:
/// the tracks listed are the named result for these bytes; bytes for which
/// the name records an error give an error; and an error other than running
/// out of memory (`mp4parse::Error::OutOfMemory`, which its fallible
/// allocations report) happens only on such bytes.
#[verifier::external_body]
fn read_mp4_tracks(buffer: &[u8]) -> (r: Result<Vec<TrackInfo>, Mp4ReadError>)
    ensures
        r matches Ok(v) ==> mp4_tracks(buffer@) == Some(v@),
        mp4_tracks(buffer@) is None ==> r is Err,
        r matches Err(Mp4ReadError::Invalid(_)) ==> mp4_tracks(buffer@) is None,
{
    let context = match mp4parse::read_mp4(&mut { buffer }) {
        Ok(c) => c,
        Err(e @ mp4parse::Error::OutOfMemory) => return Err(Mp4ReadError::OutOfMemory(e)),
        Err(e) => return Err(Mp4ReadError::Invalid(e)),
    };
    Ok(context.tracks.iter().map(|t| TrackInfo {
        kind: match t.track_type {
            mp4parse::TrackType::Audio => TrackKind::Audio, mp4parse::TrackType::Video => TrackKind::Video,
            mp4parse::TrackType::Picture => TrackKind::Picture, mp4parse::TrackType::AuxiliaryVideo => TrackKind::AuxiliaryVideo,
            mp4parse::TrackType::Metadata => TrackKind::Metadata, mp4parse::TrackType::Unknown => TrackKind::Unknown,
        },
        duration: t.duration.map(|d| d.0),
        timescale: t.timescale.map(|s| s.0),
    }).collect())
}

/// The duration of the first video track at or after index `i`, when that
/// track has both a duration and a timescale.
pub open spec fn video_duration_from(tracks: Seq<TrackInfo>, i: int) -> Option<ScaledDuration>
    decreases tracks.len() - i,
{
    if i < 0 || i >= tracks.len() {
        None
    } else if tracks[i].kind is Video {
        match (tracks[i].duration, tracks[i].timescale) {
            (Some(d), Some(t)) => Some(ScaledDuration { units: d, timescale: t }),
            _ => None,
        }
    } else {
        video_duration_from(tracks, i + 1)
    }
}

/// The duration of the first video track.
pub open spec fn video_duration(tracks: Seq<TrackInfo>) -> Option<ScaledDuration> {
    video_duration_from(tracks, 0)
}

/// Some track is an audio track.
pub open spec fn has_audio_track(tracks: Seq<TrackInfo>) -> bool {
    exists|i: int| 0 <= i < tracks.len() && (#[trigger] tracks[i]).kind is Audio
}

/// Summarises parsed tracks: first video track's duration, audio presence,
/// track count; the codec is left empty.
pub fn summarize_tracks(tracks: &Vec<TrackInfo>) -> (m: ParsedMetadata)
    ensures
        m.duration == video_duration(tracks@),
        m.video_codec is None,
        m.has_audio == has_audio_track(tracks@),
        m.track_count == tracks@.len(),
{
    let mut duration: Option<ScaledDuration> = None;
    let mut video_seen = false;
    let mut has_audio = false;
    let n = tracks.len();
    for i in 0..n
        invariant
            n == tracks@.len(),
            video_seen ==> duration == video_duration(tracks@),
            !video_seen ==> video_duration(tracks@) == video_duration_from(tracks@, i as int)
                && duration is None,
            has_audio == exists|j: int| 0 <= j < i && (#[trigger] tracks@[j]).kind is Audio,
    {
        let t = tracks[i];
        if !video_seen {
            if let TrackKind::Video = t.kind {
                video_seen = true;
                duration = match (t.duration, t.timescale) {
                    (Some(d), Some(ts)) => Some(ScaledDuration { units: d, timescale: ts }),
                    _ => None,
                };
            }
        }
        if let TrackKind::Audio = t.kind {
            has_audio = true;
        }
        assert(tracks@[i as int] == t);
    }
    ParsedMetadata { duration, video_codec: None, has_audio, track_count: n }
}

/// Parses an MP4 buffer and summarises its tracks; a parser error becomes
/// the message `MP4 parse error: ` followed by the parser's description.
/// The parser describes an error by its variant's name, so running out of
/// memory reads `MP4 parse error: OutOfMemory`; that is the only error on a
/// buffer whose tracks the parser can list.
pub fn parse_mp4_metadata(buffer: &[u8]) -> (r: Result<ParsedMetadata, String>)
    ensures
        r is Ok ==> mp4_tracks(buffer@) is Some,
        r matches Ok(m) ==> {
            let tracks = mp4_tracks(buffer@)->0;
            &&& m.duration == video_duration(tracks)
            &&& m.video_codec is None
            &&& m.has_audio == has_audio_track(tracks)
            &&& m.track_count == tracks.len()
        },
        mp4_tracks(buffer@) is None ==> r is Err,
        r matches Err(e) ==> exists|text: Seq<char>| e@ == "MP4 parse error: "@ + text,
        mp4_tracks(buffer@) is Some ==> match r {
            Ok(_) => true,
            Err(e) => e@ == "MP4 parse error: OutOfMemory"@,
        },
{
    match read_mp4_tracks(buffer) {
        Ok(tracks) => Ok(summarize_tracks(&tracks)),
        Err(Mp4ReadError::OutOfMemory(_)) => {
            proof {
                reveal_strlit("MP4 parse error: OutOfMemory");
                reveal_strlit("MP4 parse error: ");
                reveal_strlit("OutOfMemory");
                assert("MP4 parse error: OutOfMemory"@ =~= "MP4 parse error: "@ + "OutOfMemory"@);
            }
            Err(String::from_str("MP4 parse error: OutOfMemory"))
        },
        Err(Mp4ReadError::Invalid(e)) => {
            let text = e.to_string();
            let message = String::from_str("MP4 parse error: ").concat(text.as_str());
            Err(message)
        },
    }
}

/// The name ends in `.mp4` once lower-cased: its last four characters are
/// `.`, `m` or `M`, `p` or `P`, and `4`.  (No other character lower-cases to
/// one of these four, and the one character whose lower-case form is two
/// characters long, U+0130, ends in U+0307, which is none of them.)
pub open spec fn has_mp4_extension(name: Seq<char>) -> bool {
    let n = name.len();
    &&& n >= 4
    &&& name[n - 4] == '.'
    &&& (name[n - 3] == 'm' || name[n - 3] == 'M')
    &&& (name[n - 2] == 'p' || name[n - 2] == 'P')
    &&& name[n - 1] == '4'
}

/// Whether a file gets metadata in a batch request: its name, lower-cased,
/// ends in `.mp4`.
pub fn is_mp4_file_name(file_name: &str) -> (r: bool)
    ensures
        r == has_mp4_extension(file_name@),
{
    let n = file_name.unicode_len();
    if n < 4 {
        return false;
    }
    let c0 = file_name.get_char(n - 4);
    let c1 = file_name.get_char(n - 3);
    let c2 = file_name.get_char(n - 2);
    let c3 = file_name.get_char(n - 1);
    c0 == '.' && (c1 == 'm' || c1 == 'M') && (c2 == 'p' || c2 == 'P') && c3 == '4'
}

/// One entry of a batch metadata request: a message and its file name.
#[derive(Clone, Debug)]
pub struct BatchMetadataRequest {
    pub message_id: i32,
    pub file_name: String,
}


/// The metadata answered for one request of a batch: the message, and the
/// duration and display size found for it.
#[derive(Clone, Copy, Debug, PartialEq, Eq)]
pub struct BatchMetadataEntry {
    pub message_id: i32,
    pub duration: Option<ScaledDuration>,
    pub width: Option<u32>,
    pub height: Option<u32>,
}

/// The entry for one request of a batch, from what reading its file gave:
/// the duration and dimensions found, or, when reading the file failed, an
/// entry with nothing but the message id.
pub fn batch_entry(
    message_id: i32,
    outcome: Result<(Option<ScaledDuration>, (Option<u32>, Option<u32>)), String>,
) -> (r: BatchMetadataEntry)
    ensures
        r.message_id == message_id,
        match outcome {
            Ok((d, (w, h))) => r.duration == d && r.width == w && r.height == h,
            Err(_) => r.duration is None && r.width is None && r.height is None,
        },
{
    match outcome {
        Ok((duration, (width, height))) => BatchMetadataEntry { message_id, duration, width, height },
        Err(_) => BatchMetadataEntry { message_id, duration: None, width: None, height: None },
    }
}


/// Whether a name gets metadata depends on its last four characters alone,
/// and exactly the four spellings of `.mp4` that lower-case to it qualify;
/// a name of fewer than four characters never does.
pub proof fn lemma_mp4_name_is_decided_by_its_extension(stem: Seq<char>, last_four: Seq<char>)
    requires
        last_four.len() == 4,
    ensures
        has_mp4_extension(stem + last_four) == has_mp4_extension(last_four),
        has_mp4_extension(stem + last_four) <==> (last_four == ".mp4"@ || last_four == ".MP4"@
            || last_four == ".Mp4"@ || last_four == ".mP4"@),
        stem.len() < 4 ==> !has_mp4_extension(stem),
{
    reveal_strlit(".mp4");
    reveal_strlit(".MP4");
    reveal_strlit(".Mp4");
    reveal_strlit(".mP4");
    let name = stem + last_four;
    let n = name.len() as int;
    assert(name[n - 4] == last_four[0]);
    assert(name[n - 3] == last_four[1]);
    assert(name[n - 2] == last_four[2]);
    assert(name[n - 1] == last_four[3]);
    if has_mp4_extension(last_four) {
        if last_four[1] == 'm' && last_four[2] == 'p' {
            assert(last_four =~= ".mp4"@);
        } else if last_four[1] == 'M' && last_four[2] == 'P' {
            assert(last_four =~= ".MP4"@);
        } else if last_four[1] == 'M' {
            assert(last_four =~= ".Mp4"@);
        } else {
            assert(last_four =~= ".mP4"@);
        }
    }
}


proof fn lemma_duration_from_first_video(tracks: Seq<TrackInfo>, i: int, k: int)
    requires
        0 <= i <= k < tracks.len(),
        tracks[k].kind is Video,
        forall|j: int| i <= j < k ==> !(#[trigger] tracks[j].kind is Video),
    ensures
        video_duration_from(tracks, i) == video_duration_from(tracks, k),
    decreases k - i,
{
    if i < k {
        lemma_duration_from_first_video(tracks, i + 1, k);
    }
}

proof fn lemma_duration_without_video(tracks: Seq<TrackInfo>, i: int)
    requires
        0 <= i,
        forall|j: int| i <= j < tracks.len() ==> !(#[trigger] tracks[j].kind is Video),
    ensures
        video_duration_from(tracks, i) is None,
    decreases tracks.len() - i,
{
    if i < tracks.len() {
        lemma_duration_without_video(tracks, i + 1);
    }
}

/// The duration is that of the first video track and of no other: when
/// track `k` is the first video track, the duration is its duration and
/// timescale when it records both, and nothing otherwise (later video
/// tracks are not consulted); with no video track there is no duration.
pub proof fn lemma_duration_is_the_first_video_track(tracks: Seq<TrackInfo>, k: int)
    ensures
        0 <= k < tracks.len() && tracks[k].kind is Video && (forall|j: int|
            0 <= j < k ==> !(#[trigger] tracks[j].kind is Video)) ==> video_duration(tracks) == (
        if tracks[k].duration is Some && tracks[k].timescale is Some {
            Some(
                ScaledDuration {
                    units: tracks[k].duration->0,
                    timescale: tracks[k].timescale->0,
                },
            )
        } else {
            None
        }),
        (forall|j: int| 0 <= j < tracks.len() ==> !(#[trigger] tracks[j].kind is Video))
            ==> video_duration(tracks) is None,
{
    if 0 <= k < tracks.len() && tracks[k].kind is Video && (forall|j: int|
        0 <= j < k ==> !(#[trigger] tracks[j].kind is Video)) {
        lemma_duration_from_first_video(tracks, 0, k);
    }
    if forall|j: int| 0 <= j < tracks.len() ==> !(#[trigger] tracks[j].kind is Video) {
        lemma_duration_without_video(tracks, 0);
    }
}

} // verus!
