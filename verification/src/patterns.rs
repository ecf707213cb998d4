//! The regular expressions that recognise labels, markers and technical
//! terms.  All are matched case-insensitively unless they say otherwise.
use vstd::prelude::*;

verus! {

/// An explicit regional code such as `fr-CA` or `zh-Hant-TW`, not part of a
/// longer word.
pub const REGIONAL_CODE: &'static str = r"(?<![\w-])([a-z]{2,3}-(?:[a-z]{4}-)?(?:[a-z]{2}|\d{3}))(?![\w-])";

/// A role label (audio, dub, subtitles, ...) at the end of a text, followed
/// only by separators.
pub const TRAILING_ROLE: &'static str = r"\b(audio|dub(?:bed|lado)?|subs?(?:titles?)?|sdh|forced|leg(?:endado|endas?)?|undertekst)\b[ .,:-]*$";

/// The opening of a language list: separators then a bracket, or a colon.
pub const LIST_OPENING: &'static str = r"^(?:[ .,:-]*[\[({]|[ .-]*:)\s*";

/// An SDH or forced annotation right after separators.
pub const ANNOTATION: &'static str = r"^[ .,:-]*(?:sdh|forced)\b";

/// Separators only.
pub const SEPARATORS: &'static str = r"[ .,:-]*";

/// An SDH or forced annotation alone in a block.
pub const BLOCK_ANNOTATION: &'static str = r"\s*(?:sdh|forced)\s*";

/// A subtitle label between separators.
pub const SUBTITLE_LABEL: &'static str = r"[ .,:-]*(?:subs?(?:titles?)?|SDH|FORCED)[ .,:-]*";

/// A role label word.
pub const ROLE: &'static str = r"\b(audio|dub(?:bed|lado)?|subs?(?:titles?)?|sdh|forced|leg(?:endado|endas?)?|undertekst)\b";

/// A list opening (colon or bracket) right after a label.
pub const LIST_AFTER_LABEL: &'static str = r"^[ .-]*[:\[({]";

/// A `multi` marker right before a label.
pub const MULTI_BEFORE: &'static str = r"\bmulti(?:ple)?[ .-]*$";

/// A subtitle file name extension at the end of a title.
pub const SUBTITLE_FILE: &'static str = r"\.(?:srt|ass|ssa|vtt|sub|idx|smi|ttxt)\s*$";

/// A French or multi-language audio marker.
pub const AUDIO_MARKER: &'static str = r"VO[QF]|VQ|VF[FQIB2]?|FR2|TRUEFRENCH|MULTI(?:PLE)?(?:[ .-]*AUDIO)?";

/// A multi-subtitle marker.
pub const MULTI_SUB: &'static str = r"MULTI(?:PLE)?[ .-]*SUB(?:S|TITLES?|BED)?|MSUB";

/// A subtitle label at the end of a text.
pub const SUBS_AT_END: &'static str = r"\bsubs?(?:titles?)?\s*$";

/// A subtitle word anywhere in a text.
pub const SUBTITLE_WORD: &'static str = r"vost|sub|undertekst|\b(?:sdh|forced|leg(?:endado|endas?)?)\b";

/// An audio or dub label.
pub const AUDIO_LABEL: &'static str = r"^(?:audio|dub)";

/// A subtitle label right after separators.
pub const SUBTITLE_AFTER: &'static str = r"^[ .,:-]*(subs?(?:titles?)?|sdh|forced|undertekst)\b";

/// An SDH or forced word.
pub const GROUP_ANNOTATION_WORD: &'static str = r"\b(?:SDH|FORCED)\b";

/// An SDH or forced annotation, bare or bracketed, between separators.
pub const GROUP_ANNOTATION: &'static str = r"[ .,:-]*(?:SDH|FORCED|\(\s*(?:SDH|FORCED)\s*\)|\[\s*(?:SDH|FORCED)\s*\]|\{\s*(?:SDH|FORCED)\s*\})[ .,:-]*";

/// A size, frame-rate or bit-rate unit right after a number.
pub const SIZE_UNIT: &'static str = r"^[ .-]*(?:[KMGT]i?[BO]|FPS|K?BPS)\b";

/// A number and separator right before.
pub const NUMBER_BEFORE: &'static str = r"\b\d+[. -]$";

/// An audio codec right before.
pub const CODEC_BEFORE: &'static str = r"(?:AAC(?:v2)?|DTS|TRUE[ .-]*HD)$";

/// A channel layout at the start.
pub const CHANNELS_AT_START: &'static str = r"^([1-9]\d?[. -][012][. -][1-9]\d?)(?:ch)?(?!\w|[.]\d(?!\d{2,3}[pi]\b))";

/// A web site or the word sci-fi.
pub const SITE_OR_GENRE: &'static str = r"\bwww\.[a-z0-9_-]+\.[a-z]+\b|\bsci[ .-]?fi\b";

/// A French, English or multi-language release marker.
pub const RELEASE_MARKER: &'static str = r"\b(VF2|FR2|VFQ|VFF|VFB|VOQ|VQ|TRUEFRENCH|SUBFRENCH|FRENCH|VOSTFR|VOSTA|ENGSUB|ESUBS?|MULTI(?:PLE)?[ .-]*SUB(?:S|TITLES?|BED)?|MSUB|MULTI(?:PLE)?[ .-]*AUDIO|MULTI)\b";

/// The word subbed.
pub const SUBBED: &'static str = r"\bsubbed\b";

/// A two- or three-letter upper-case word (case-sensitive).
pub const UPPER_CODE: &'static str = r"(?-i:\b[A-Z]{2,3}\b)";

/// Traditional Chinese.
pub const TRADITIONAL: &'static str = r"\bCHT\b|hant|traditional";

/// Simplified Chinese.
pub const SIMPLIFIED: &'static str = r"\bCHS\b|hans|simplified";

/// Brazilian Portuguese.
pub const BRAZILIAN: &'static str = r"\bBR\b|brazil";

} // verus!
