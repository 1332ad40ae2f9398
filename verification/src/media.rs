//! Checks that an input file is an MP4 or WebM video that may be
//! transcribed, and reading of the audio extractor's failure reports.

use vstd::prelude::*;

verus! {

/// The largest accepted media file, in bytes (2 GiB).
pub const MAX_MEDIA_SIZE: u64 = 2147483648;

/// Bytes of the container header that are checked.
pub const HEADER_LEN: usize = 12;

/// Bytes after the header that are searched for the WebM document type.
pub const PROBE_LEN: usize = 4096;

/// The accepted containers.
#[derive(Debug, Clone, Copy, PartialEq, Eq, Structural)]
pub enum MediaKind {
    Mp4,
    Webm,
}

/// Why a media file is refused.
#[derive(Debug, Clone, Copy, PartialEq, Eq, Structural)]
pub enum MediaError {
    /// The file is larger than `MAX_MEDIA_SIZE`.
    TooLarge,
    /// The file is shorter than the header.
    HeaderTooShort,
    /// The file name's extension is neither `mp4` nor `webm`.
    UnsupportedExtension,
    /// An `.mp4` file without the `ftyp` box.
    MissingFtyp,
    /// A `.webm` file without the EBML magic number.
    MissingEbmlMagic,
    /// A `.webm` file whose first bytes do not name the `webm` document type.
    MissingWebmDocType,
}

/// ASCII lower case of a byte (`u8::to_ascii_lowercase`).
pub open spec fn ascii_lower(b: u8) -> u8 {
    if 65 <= b <= 90 {
        (b + 32) as u8
    } else {
        b
    }
}

fn to_ascii_lower(b: u8) -> (r: u8)
    ensures
        r == ascii_lower(b),
{
    if 65 <= b && b <= 90 {
        b + 32
    } else {
        b
    }
}

/// `s` equals `word` when ASCII letters are compared without case.
pub open spec fn eq_ignore_case(s: Seq<u8>, word: Seq<u8>) -> bool {
    s.len() == word.len() && forall|i: int| 0 <= i < s.len() ==> ascii_lower(#[trigger] s[i])
        == word[i]
}

/// `word` occurs in `hay` at `i`, with ASCII letters compared without case
/// when `fold` holds.
pub open spec fn bytes_at(hay: Seq<u8>, word: Seq<u8>, i: int, fold: bool) -> bool {
    &&& 0 <= i
    &&& i + word.len() <= hay.len()
    &&& forall|j: int|
        0 <= j < word.len() ==> (if fold {
            ascii_lower(#[trigger] hay[i + j])
        } else {
            hay[i + j]
        }) == word[j]
}

/// `word` occurs somewhere in `hay`.
pub open spec fn bytes_contain(hay: Seq<u8>, word: Seq<u8>, fold: bool) -> bool {
    exists|i: int| bytes_at(hay, word, i, fold)
}

fn eq_ignore_case_exec(s: &[u8], word: &[u8]) -> (r: bool)
    ensures
        r == eq_ignore_case(s@, word@),
{
    if s.len() != word.len() {
        return false;
    }
    let mut i: usize = 0;
    while i < s.len()
        invariant
            s@.len() == word@.len(),
            i <= s@.len(),
            forall|j: int| 0 <= j < i ==> ascii_lower(#[trigger] s@[j]) == word@[j],
        decreases s@.len() - i,
    {
        if to_ascii_lower(s[i]) != word[i] {
            return false;
        }
        i = i + 1;
    }
    true
}

fn bytes_at_exec(hay: &[u8], word: &[u8], i: usize, fold: bool) -> (r: bool)
    requires
        i <= hay@.len(),
    ensures
        r == bytes_at(hay@, word@, i as int, fold),
{
    if word.len() > hay.len() - i {
        return false;
    }
    let n = hay.len();
    let mut j: usize = 0;
    while j < word.len()
        invariant
            n == hay@.len(),
            i + word@.len() <= n,
            j <= word@.len(),
            forall|k: int|
                0 <= k < j ==> (if fold {
                    ascii_lower(#[trigger] hay@[i + k])
                } else {
                    hay@[i + k]
                }) == word@[k],
        decreases word@.len() - j,
    {
        let b = if fold {
            to_ascii_lower(hay[i + j])
        } else {
            hay[i + j]
        };
        if b != word[j] {
            return false;
        }
        j = j + 1;
    }
    true
}

/// Does `word` occur in `hay` (ASCII case folded when `fold` holds)?
pub fn contains_bytes(hay: &[u8], word: &[u8], fold: bool) -> (r: bool)
    ensures
        r == bytes_contain(hay@, word@, fold),
{
    let n = hay.len();
    let mut i: usize = 0;
    while i <= n
        invariant
            n == hay@.len(),
            i <= n + 1,
            forall|k: int| 0 <= k < i ==> !bytes_at(hay@, word@, k, fold),
        decreases n + 1 - i,
    {
        if bytes_at_exec(hay, word, i, fold) {
            return true;
        }
        if i == n {
            proof {
                assert forall|k: int| !bytes_at(hay@, word@, k, fold) by {
                    if 0 <= k && k > n {
                        assert(k + word@.len() > hay@.len());
                    }
                }
            }
            return false;
        }
        i = i + 1;
    }
    false
}

/// The bytes `mp4`.
pub open spec fn word_mp4() -> Seq<u8> {
    seq![109u8, 112u8, 52u8]
}

/// The bytes `webm`.
pub open spec fn word_webm() -> Seq<u8> {
    seq![119u8, 101u8, 98u8, 109u8]
}

/// The bytes `ftyp`.
pub open spec fn word_ftyp() -> Seq<u8> {
    seq![102u8, 116u8, 121u8, 112u8]
}

/// The EBML magic number that opens every WebM file.
pub open spec fn ebml_magic() -> Seq<u8> {
    seq![0x1au8, 0x45u8, 0xdfu8, 0xa3u8]
}

/// The container named by a file extension, compared without ASCII case.
pub open spec fn spec_kind_of_extension(ext: Seq<u8>) -> Option<MediaKind> {
    if eq_ignore_case(ext, word_mp4()) {
        Some(MediaKind::Mp4)
    } else if eq_ignore_case(ext, word_webm()) {
        Some(MediaKind::Webm)
    } else {
        None
    }
}

/// The verdict on a media file of `size` bytes named with extension `ext`
/// (empty when there is none), whose first bytes are `header` and whose
/// next bytes are `probe`.
pub open spec fn spec_validate_media(size: u64, ext: Seq<u8>, header: Seq<u8>, probe: Seq<u8>) -> Result<
    MediaKind,
    MediaError,
> {
    if size > MAX_MEDIA_SIZE {
        Err(MediaError::TooLarge)
    } else if header.len() < HEADER_LEN {
        Err(MediaError::HeaderTooShort)
    } else {
        match spec_kind_of_extension(ext) {
            None => Err(MediaError::UnsupportedExtension),
            Some(MediaKind::Mp4) => if header.subrange(4, 8) == word_ftyp() {
                Ok(MediaKind::Mp4)
            } else {
                Err(MediaError::MissingFtyp)
            },
            Some(MediaKind::Webm) => if header.subrange(0, 4) != ebml_magic() {
                Err(MediaError::MissingEbmlMagic)
            } else if !bytes_contain(probe, word_webm(), true) {
                Err(MediaError::MissingWebmDocType)
            } else {
                Ok(MediaKind::Webm)
            },
        }
    }
}

/// The container named by a file extension (`mp4` or `webm`, any ASCII
/// case).
pub fn kind_of_extension(ext: &[u8]) -> (r: Option<MediaKind>)
    ensures
        r == spec_kind_of_extension(ext@),
{
    let mp4: [u8; 3] = [109, 112, 52];
    let webm: [u8; 4] = [119, 101, 98, 109];
    assert(mp4@ == word_mp4());
    assert(webm@ == word_webm());
    if eq_ignore_case_exec(ext, &mp4) {
        Some(MediaKind::Mp4)
    } else if eq_ignore_case_exec(ext, &webm) {
        Some(MediaKind::Webm)
    } else {
        None
    }
}

/// Checks a media file: its size, its extension and the magic bytes of its
/// container. `header` holds the file's first bytes (at least
/// `HEADER_LEN` of them unless the file is shorter) and `probe` the bytes
/// read after them (up to `PROBE_LEN`), in which a WebM file must name
/// its `webm` document type.
pub fn validate_media(size: u64, ext: &[u8], header: &[u8], probe: &[u8]) -> (r: Result<
    MediaKind,
    MediaError,
>)
    ensures
        r == spec_validate_media(size, ext@, header@, probe@),
        size <= MAX_MEDIA_SIZE && header@.len() >= 12 && names_mp4(ext@) && header@[4] == 102
            && header@[5] == 116 && header@[6] == 121 && header@[7] == 112 ==> r == Ok::<
            MediaKind,
            MediaError,
        >(MediaKind::Mp4),
        size <= MAX_MEDIA_SIZE && header@.len() >= 12 && names_webm(ext@) && header@[0] == 0x1a
            && header@[1] == 0x45 && header@[2] == 0xdf && header@[3] == 0xa3 && (exists|i: int|
            webm_at(probe@, i)) ==> r == Ok::<MediaKind, MediaError>(MediaKind::Webm),
{
    proof {
        lemma_media_verdict(size, ext@, header@, probe@);
    }
    if size > MAX_MEDIA_SIZE {
        return Err(MediaError::TooLarge);
    }
    if header.len() < HEADER_LEN {
        return Err(MediaError::HeaderTooShort);
    }
    match kind_of_extension(ext) {
        None => Err(MediaError::UnsupportedExtension),
        Some(MediaKind::Mp4) => {
            if header[4] == 102 && header[5] == 116 && header[6] == 121 && header[7] == 112 {
                assert(header@.subrange(4, 8) =~= word_ftyp());
                Ok(MediaKind::Mp4)
            } else {
                assert(header@.subrange(4, 8) != word_ftyp()) by {
                    if header@.subrange(4, 8) == word_ftyp() {
                        assert(header@.subrange(4, 8)[0] == header@[4]);
                        assert(header@.subrange(4, 8)[1] == header@[5]);
                        assert(header@.subrange(4, 8)[2] == header@[6]);
                        assert(header@.subrange(4, 8)[3] == header@[7]);
                    }
                }
                Err(MediaError::MissingFtyp)
            }
        },
        Some(MediaKind::Webm) => {
            if !(header[0] == 0x1a && header[1] == 0x45 && header[2] == 0xdf && header[3] == 0xa3) {
                assert(header@.subrange(0, 4) != ebml_magic()) by {
                    if header@.subrange(0, 4) == ebml_magic() {
                        assert(header@.subrange(0, 4)[0] == header@[0]);
                        assert(header@.subrange(0, 4)[1] == header@[1]);
                        assert(header@.subrange(0, 4)[2] == header@[2]);
                        assert(header@.subrange(0, 4)[3] == header@[3]);
                    }
                }
                return Err(MediaError::MissingEbmlMagic);
            }
            assert(header@.subrange(0, 4) =~= ebml_magic());
            let webm: [u8; 4] = [119, 101, 98, 109];
            assert(webm@ == word_webm());
            if !contains_bytes(probe, &webm, true) {
                return Err(MediaError::MissingWebmDocType);
            }
            Ok(MediaKind::Webm)
        },
    }
}

// ---------------------------------------------------------------------------
// What the verdict on a media file is, byte by byte
// ---------------------------------------------------------------------------

/// `b` is the lower-case ASCII letter `lower` in either case.
pub open spec fn is_letter(b: u8, lower: u8) -> bool {
    b == lower || b + 32 == lower
}

/// An extension that names MP4: `mp4` in any case.
pub open spec fn names_mp4(ext: Seq<u8>) -> bool {
    ext.len() == 3 && is_letter(ext[0], 109) && is_letter(ext[1], 112) && ext[2] == 52
}

/// An extension that names WebM: `webm` in any case.
pub open spec fn names_webm(ext: Seq<u8>) -> bool {
    ext.len() == 4 && is_letter(ext[0], 119) && is_letter(ext[1], 101) && is_letter(ext[2], 98)
        && is_letter(ext[3], 109)
}

/// `webm`, in any case, starts at `i` in `probe`.
pub open spec fn webm_at(probe: Seq<u8>, i: int) -> bool {
    0 <= i && i + 4 <= probe.len() && is_letter(probe[i], 119) && is_letter(probe[i + 1], 101)
        && is_letter(probe[i + 2], 98) && is_letter(probe[i + 3], 109)
}

proof fn lemma_letter(b: u8, lower: u8)
    requires
        97 <= lower <= 122,
    ensures
        is_letter(b, lower) == (ascii_lower(b) == lower),
{
}

proof fn lemma_names(ext: Seq<u8>)
    ensures
        eq_ignore_case(ext, word_mp4()) == names_mp4(ext),
        eq_ignore_case(ext, word_webm()) == names_webm(ext),
{
    if ext.len() == 3 {
        lemma_letter(ext[0], 109);
        lemma_letter(ext[1], 112);
        if eq_ignore_case(ext, word_mp4()) {
            assert(ascii_lower(ext[2]) == 52);
        }
        if names_mp4(ext) {
            assert forall|i: int| 0 <= i < 3 implies ascii_lower(#[trigger] ext[i])
                == word_mp4()[i] by {}
        }
    }
    if ext.len() == 4 {
        lemma_letter(ext[0], 119);
        lemma_letter(ext[1], 101);
        lemma_letter(ext[2], 98);
        lemma_letter(ext[3], 109);
        if eq_ignore_case(ext, word_webm()) {
            assert(ascii_lower(ext[0]) == 119 && ascii_lower(ext[1]) == 101 && ascii_lower(ext[2])
                == 98 && ascii_lower(ext[3]) == 109);
        }
        if names_webm(ext) {
            assert forall|i: int| 0 <= i < 4 implies ascii_lower(#[trigger] ext[i])
                == word_webm()[i] by {}
        }
    }
}

proof fn lemma_webm_anywhere(probe: Seq<u8>)
    ensures
        bytes_contain(probe, word_webm(), true) == exists|i: int| webm_at(probe, i),
{
    if bytes_contain(probe, word_webm(), true) {
        let i = choose|i: int| bytes_at(probe, word_webm(), i, true);
        assert(ascii_lower(probe[i + 0]) == 119 && ascii_lower(probe[i + 1]) == 101 && ascii_lower(
            probe[i + 2],
        ) == 98 && ascii_lower(probe[i + 3]) == 109);
        lemma_letter(probe[i], 119);
        lemma_letter(probe[i + 1], 101);
        lemma_letter(probe[i + 2], 98);
        lemma_letter(probe[i + 3], 109);
        assert(webm_at(probe, i));
    }
    if exists|i: int| webm_at(probe, i) {
        let i = choose|i: int| webm_at(probe, i);
        lemma_letter(probe[i], 119);
        lemma_letter(probe[i + 1], 101);
        lemma_letter(probe[i + 2], 98);
        lemma_letter(probe[i + 3], 109);
        assert forall|j: int| 0 <= j < 4 implies ascii_lower(#[trigger] probe[i + j])
            == word_webm()[j] by {
            if j == 0 {
                assert(probe[i + j] == probe[i]);
            }
        }
        assert(bytes_at(probe, word_webm(), i, true));
    }
}

/// The container that an extension names: MP4 for `mp4` and WebM for
/// `webm`, each in any mix of cases, and none for anything else.
pub proof fn lemma_extension_kind(ext: Seq<u8>)
    ensures
        spec_kind_of_extension(ext) == if names_mp4(ext) {
            Some(MediaKind::Mp4)
        } else if names_webm(ext) {
            Some(MediaKind::Webm)
        } else {
            None
        },
{
    lemma_names(ext);
}

/// The verdict on every media file, from its size, extension and bytes:
/// too large beyond 2 GiB; too short without twelve header bytes; an
/// extension other than `mp4` or `webm` (in any case) is refused; an MP4
/// file is accepted exactly when bytes 4 to 7 are `ftyp`; a WebM file must
/// open with the EBML magic `1A 45 DF A3` and is then accepted exactly when
/// `webm`, in any case, occurs anywhere in the probe bytes.
pub proof fn lemma_media_verdict(size: u64, ext: Seq<u8>, header: Seq<u8>, probe: Seq<u8>)
    ensures
        size > MAX_MEDIA_SIZE ==> spec_validate_media(size, ext, header, probe) == Err::<
            MediaKind,
            MediaError,
        >(MediaError::TooLarge),
        size <= MAX_MEDIA_SIZE && header.len() < 12 ==> spec_validate_media(size, ext, header, probe)
            == Err::<MediaKind, MediaError>(MediaError::HeaderTooShort),
        size <= MAX_MEDIA_SIZE && header.len() >= 12 && !names_mp4(ext) && !names_webm(ext)
            ==> spec_validate_media(size, ext, header, probe) == Err::<MediaKind, MediaError>(
            MediaError::UnsupportedExtension,
        ),
        size <= MAX_MEDIA_SIZE && header.len() >= 12 && names_mp4(ext) ==> spec_validate_media(
            size,
            ext,
            header,
            probe,
        ) == if header[4] == 102 && header[5] == 116 && header[6] == 121 && header[7] == 112 {
            Ok::<MediaKind, MediaError>(MediaKind::Mp4)
        } else {
            Err::<MediaKind, MediaError>(MediaError::MissingFtyp)
        },
        size <= MAX_MEDIA_SIZE && header.len() >= 12 && names_webm(ext) ==> spec_validate_media(
            size,
            ext,
            header,
            probe,
        ) == if !(header[0] == 0x1a && header[1] == 0x45 && header[2] == 0xdf && header[3]
            == 0xa3) {
            Err::<MediaKind, MediaError>(MediaError::MissingEbmlMagic)
        } else if exists|i: int| webm_at(probe, i) {
            Ok::<MediaKind, MediaError>(MediaKind::Webm)
        } else {
            Err::<MediaKind, MediaError>(MediaError::MissingWebmDocType)
        },
{
    lemma_names(ext);
    lemma_webm_anywhere(probe);
    if header.len() >= 12 {
        let h = header;
        assert((h.subrange(4, 8) == word_ftyp()) == (h[4] == 102 && h[5] == 116 && h[6] == 121
            && h[7] == 112)) by {
            if h[4] == 102 && h[5] == 116 && h[6] == 121 && h[7] == 112 {
                assert(h.subrange(4, 8) =~= word_ftyp());
            }
            if h.subrange(4, 8) == word_ftyp() {
                assert(h.subrange(4, 8)[0] == h[4] && h.subrange(4, 8)[1] == h[5] && h.subrange(4, 8)[2]
                    == h[6] && h.subrange(4, 8)[3] == h[7]);
            }
        }
        assert((h.subrange(0, 4) == ebml_magic()) == (h[0] == 0x1a && h[1] == 0x45 && h[2] == 0xdf
            && h[3] == 0xa3)) by {
            if h[0] == 0x1a && h[1] == 0x45 && h[2] == 0xdf && h[3] == 0xa3 {
                assert(h.subrange(0, 4) =~= ebml_magic());
            }
            if h.subrange(0, 4) == ebml_magic() {
                assert(h.subrange(0, 4)[0] == h[0] && h.subrange(0, 4)[1] == h[1] && h.subrange(0, 4)[2]
                    == h[2] && h.subrange(0, 4)[3] == h[3]);
            }
        }
    }
}

/// A failed audio extraction reports a missing audio stream exactly when
/// its error output holds one of the extractor's two messages for it, at
/// some place, byte for byte.
pub proof fn lemma_extract_failure(stderr: Seq<u8>, r: ExtractFailure)
    requires
        r == (if bytes_contain(stderr, msg_no_stream(), false) || bytes_contain(
            stderr,
            msg_map_no_match(),
            false,
        ) {
            ExtractFailure::NoAudioStream
        } else {
            ExtractFailure::Other
        }),
    ensures
        (r == ExtractFailure::NoAudioStream) == ((exists|i: int|
            0 <= i && i + 27 <= stderr.len() && #[trigger] stderr.subrange(i, i + 27)
                == msg_no_stream()) || (exists|i: int|
            0 <= i && i + 37 <= stderr.len() && #[trigger] stderr.subrange(i, i + 37)
                == msg_map_no_match())),
{
    assert(msg_no_stream().len() == 27);
    assert(msg_map_no_match().len() == 37);
    assert forall|i: int| #[trigger] bytes_at(stderr, msg_no_stream(), i, false) <==> (0 <= i && i
        + 27 <= stderr.len() && stderr.subrange(i, i + 27) == msg_no_stream()) by {
        if 0 <= i && i + 27 <= stderr.len() && stderr.subrange(i, i + 27) == msg_no_stream() {
            assert forall|j: int| 0 <= j < 27 implies stderr[i + j] == msg_no_stream()[j] by {
                assert(stderr.subrange(i, i + 27)[j] == stderr[i + j]);
            }
        }
        if bytes_at(stderr, msg_no_stream(), i, false) {
            assert forall|k: int| 0 <= k < 27 implies stderr.subrange(i, i + 27)[k] == msg_no_stream()[k] by {
                assert(stderr[i + k] == msg_no_stream()[k]);
            }
            assert(stderr.subrange(i, i + 27) =~= msg_no_stream());
        }
    }
    assert forall|i: int| #[trigger] bytes_at(stderr, msg_map_no_match(), i, false) <==> (0 <= i
        && i + 37 <= stderr.len() && stderr.subrange(i, i + 37) == msg_map_no_match()) by {
        if 0 <= i && i + 37 <= stderr.len() && stderr.subrange(i, i + 37) == msg_map_no_match() {
            assert forall|j: int| 0 <= j < 37 implies stderr[i + j] == msg_map_no_match()[j] by {
                assert(stderr.subrange(i, i + 37)[j] == stderr[i + j]);
            }
        }
        if bytes_at(stderr, msg_map_no_match(), i, false) {
            assert forall|k: int| 0 <= k < 37 implies stderr.subrange(i, i + 37)[k] == msg_map_no_match()[k] by {
                assert(stderr[i + k] == msg_map_no_match()[k]);
            }
            assert(stderr.subrange(i, i + 37) =~= msg_map_no_match());
        }
    }
    if bytes_contain(stderr, msg_no_stream(), false) {
        let i = choose|i: int| bytes_at(stderr, msg_no_stream(), i, false);
        assert(stderr.subrange(i, i + 27) == msg_no_stream());
    }
    if bytes_contain(stderr, msg_map_no_match(), false) {
        let i = choose|i: int| bytes_at(stderr, msg_map_no_match(), i, false);
        assert(stderr.subrange(i, i + 37) == msg_map_no_match());
    }
    if exists|i: int|
        0 <= i && i + 27 <= stderr.len() && #[trigger] stderr.subrange(i, i + 27) == msg_no_stream() {
        let i = choose|i: int|
            0 <= i && i + 27 <= stderr.len() && #[trigger] stderr.subrange(i, i + 27) == msg_no_stream();
        assert(bytes_at(stderr, msg_no_stream(), i, false));
    }
    if exists|i: int|
        0 <= i && i + 37 <= stderr.len() && #[trigger] stderr.subrange(i, i + 37)
            == msg_map_no_match() {
        let i = choose|i: int|
            0 <= i && i + 37 <= stderr.len() && #[trigger] stderr.subrange(i, i + 37)
                == msg_map_no_match();
        assert(bytes_at(stderr, msg_map_no_match(), i, false));
    }
}

// ---------------------------------------------------------------------------
// Audio extraction failures
// ---------------------------------------------------------------------------

/// Why the audio extractor failed.
#[derive(Debug, Clone, Copy, PartialEq, Eq, Structural)]
pub enum ExtractFailure {
    /// The video has no audio stream.
    NoAudioStream,
    /// Any other failure.
    Other,
}

/// `does not contain any stream`
pub open spec fn msg_no_stream() -> Seq<u8> {
    seq![
        100u8, 111u8, 101u8, 115u8, 32u8, 110u8, 111u8, 116u8, 32u8, 99u8, 111u8, 110u8, 116u8,
        97u8, 105u8, 110u8, 32u8, 97u8, 110u8, 121u8, 32u8, 115u8, 116u8, 114u8, 101u8, 97u8,
        109u8,
    ]
}

/// `Stream map '0:a:0' matches no streams`
pub open spec fn msg_map_no_match() -> Seq<u8> {
    seq![
        83u8, 116u8, 114u8, 101u8, 97u8, 109u8, 32u8, 109u8, 97u8, 112u8, 32u8, 39u8, 48u8, 58u8,
        97u8, 58u8, 48u8, 39u8, 32u8, 109u8, 97u8, 116u8, 99u8, 104u8, 101u8, 115u8, 32u8, 110u8,
        111u8, 32u8, 115u8, 116u8, 114u8, 101u8, 97u8, 109u8, 115u8,
    ]
}

/// Reads the error output of a failed audio extraction: it reports a
/// missing audio stream when it holds either of the extractor's two
/// messages for it.
pub fn classify_extract_failure(stderr: &[u8]) -> (r: ExtractFailure)
    ensures
        r == (if bytes_contain(stderr@, msg_no_stream(), false) || bytes_contain(
            stderr@,
            msg_map_no_match(),
            false,
        ) {
            ExtractFailure::NoAudioStream
        } else {
            ExtractFailure::Other
        }),
{
    let no_stream: Vec<u8> = vec![
        100u8, 111u8, 101u8, 115u8, 32u8, 110u8, 111u8, 116u8, 32u8, 99u8, 111u8, 110u8, 116u8,
        97u8, 105u8, 110u8, 32u8, 97u8, 110u8, 121u8, 32u8, 115u8, 116u8, 114u8, 101u8, 97u8,
        109u8,
    ];
    let map_no_match: Vec<u8> = vec![
        83u8, 116u8, 114u8, 101u8, 97u8, 109u8, 32u8, 109u8, 97u8, 112u8, 32u8, 39u8, 48u8, 58u8,
        97u8, 58u8, 48u8, 39u8, 32u8, 109u8, 97u8, 116u8, 99u8, 104u8, 101u8, 115u8, 32u8, 110u8,
        111u8, 32u8, 115u8, 116u8, 114u8, 101u8, 97u8, 109u8, 115u8,
    ];
    assert(no_stream@ =~= msg_no_stream());
    assert(map_no_match@ =~= msg_map_no_match());
    if contains_bytes(stderr, no_stream.as_slice(), false) || contains_bytes(
        stderr,
        map_no_match.as_slice(),
        false,
    ) {
        ExtractFailure::NoAudioStream
    } else {
        ExtractFailure::Other
    }
}

} // verus!
