use vstd::prelude::*;

verus! {

/// The byte that introduces every JPEG marker (and pads between markers).
pub open spec fn is_fill(b: u8) -> bool {
    b == 0xff
}

/// APP0..APP15 and COM: the markers that carry metadata.
pub open spec fn is_metadata_marker(m: u8) -> bool {
    (0xe0 <= m && m <= 0xef) || m == 0xfe
}

/// Markers that stand alone, without a length field: TEM, RST0..RST7, SOI, EOI.
pub open spec fn is_standalone_marker(m: u8) -> bool {
    m == 0x01 || (0xd0 <= m && m <= 0xd9)
}

/// The big-endian length field that follows the marker byte at index `m`.
pub open spec fn segment_length(s: Seq<u8>, m: int) -> nat {
    (s[m + 1] as nat) * 256 + (s[m + 2] as nat)
}

/// Whether scanning the stream `s` from index `pos` meets a metadata marker.
///
/// The scan skips bytes that do not start a marker; a run of `0xff` bytes is
/// fill before the marker byte; a stuffed zero after `0xff` and standalone
/// markers are stepped over; a segment with a length field is skipped whole.
/// A truncated or malformed segment header ends the scan without metadata.
pub open spec fn metadata_from(s: Seq<u8>, pos: nat) -> bool
    decreases (if pos < s.len() { s.len() - pos } else { 0 }),
{
    if pos + 1 >= s.len() {
        false
    } else if !is_fill(s[pos as int]) || is_fill(s[pos + 1int]) {
        metadata_from(s, pos + 1)
    } else {
        let m = pos + 1;
        let marker = s[m as int];
        if marker == 0 {
            metadata_from(s, m + 1)
        } else if is_metadata_marker(marker) {
            true
        } else if is_standalone_marker(marker) {
            metadata_from(s, m + 1)
        } else if m + 3 > s.len() {
            false
        } else if segment_length(s, m as int) < 2 {
            false
        } else {
            metadata_from(s, m + 1 + segment_length(s, m as int))
        }
    }
}

/// Whether the JPEG stream `s` holds an APPn or COM marker.
pub open spec fn has_metadata(s: Seq<u8>) -> bool {
    metadata_from(s, 0)
}

/// Reports whether `jpeg` carries APPn or COM markers, walking the marker
/// segments from the start of the stream.
pub fn contains_metadata(jpeg: &[u8]) -> (found: bool)
    ensures
        found == has_metadata(jpeg@),
{
    let len = jpeg.len();
    let mut position: usize = 0;
    while position < len && len - position > 1
        invariant
            len == jpeg@.len(),
            position <= len,
            has_metadata(jpeg@) == metadata_from(jpeg@, position as nat),
        decreases len - position,
    {
        if jpeg[position] != 0xff || jpeg[position + 1] == 0xff {
            position = position + 1;
            continue;
        }
        let marker_position = position + 1;
        let marker = jpeg[marker_position];
        if marker == 0x00 {
            position = marker_position + 1;
            continue;
        }
        if (0xe0 <= marker && marker <= 0xef) || marker == 0xfe {
            return true;
        }
        if marker == 0x01 || (0xd0 <= marker && marker <= 0xd9) {
            position = marker_position + 1;
            continue;
        }
        if len - marker_position < 3 {
            return false;
        }
        let length = (jpeg[marker_position + 1] as usize) * 256 + (jpeg[marker_position + 2] as usize);
        if length < 2 {
            return false;
        }
        if length > len - (marker_position + 1) {
            // The next segment would start past the end: the scan stops there.
            assert(!metadata_from(jpeg@, (marker_position + 1 + length) as nat));
            return false;
        }
        position = marker_position + 1 + length;
    }
    false
}

/// A metadata marker met by the scan from `pos` is an APPn or COM byte that
/// follows a `0xff` byte at or after `pos`.
proof fn lemma_metadata_from_has_marker(s: Seq<u8>, pos: nat)
    requires
        metadata_from(s, pos),
    ensures
        exists|i: int| pos < i < s.len() && is_fill(#[trigger] s[i - 1]) && is_metadata_marker(s[i]),
    decreases (if pos < s.len() { s.len() - pos } else { 0 }),
{
    if pos + 1 >= s.len() {
    } else if !is_fill(s[pos as int]) || is_fill(s[pos + 1int]) {
        lemma_metadata_from_has_marker(s, pos + 1);
    } else {
        let m = pos + 1;
        let marker = s[m as int];
        if marker == 0 {
            lemma_metadata_from_has_marker(s, m + 1);
        } else if is_metadata_marker(marker) {
            assert(is_fill(s[m - 1]));
        } else if is_standalone_marker(marker) {
            lemma_metadata_from_has_marker(s, m + 1);
        } else if m + 3 > s.len() {
        } else if segment_length(s, m as int) < 2 {
        } else {
            lemma_metadata_from_has_marker(s, m + 1 + segment_length(s, m as int));
        }
    }
}

/// Metadata is only ever reported for a stream that holds an APPn or COM
/// marker byte directly after a `0xff` byte.
pub proof fn law_metadata_is_a_marker(s: Seq<u8>)
    requires
        has_metadata(s),
    ensures
        exists|i: int|
            0 < i < s.len() && #[trigger] s[i - 1] == 0xff && ((0xe0 <= s[i] && s[i] <= 0xef)
                || s[i] == 0xfe),
{
    lemma_metadata_from_has_marker(s, 0);
}

proof fn lemma_metadata_from_extend(s: Seq<u8>, t: Seq<u8>, pos: nat)
    requires
        metadata_from(s, pos),
    ensures
        metadata_from(s + t, pos),
    decreases (if pos < s.len() { s.len() - pos } else { 0 }),
{
    let st = s + t;
    if pos + 1 >= s.len() {
    } else {
        assert(st[pos as int] == s[pos as int]);
        assert(st[pos + 1int] == s[pos + 1int]);
        if !is_fill(s[pos as int]) || is_fill(s[pos + 1int]) {
            lemma_metadata_from_extend(s, t, pos + 1);
        } else {
            let m = pos + 1;
            let marker = s[m as int];
            if marker == 0 {
                lemma_metadata_from_extend(s, t, m + 1);
            } else if is_metadata_marker(marker) {
            } else if is_standalone_marker(marker) {
                lemma_metadata_from_extend(s, t, m + 1);
            } else if m + 3 > s.len() {
            } else if segment_length(s, m as int) < 2 {
            } else {
                assert(st[m + 1int] == s[m + 1int]);
                assert(st[m + 2int] == s[m + 2int]);
                assert(segment_length(st, m as int) == segment_length(s, m as int));
                lemma_metadata_from_extend(s, t, m + 1 + segment_length(s, m as int));
            }
        }
    }
}

/// Bytes appended after a stream never hide the metadata found in it.
pub proof fn law_metadata_survives_appending(s: Seq<u8>, t: Seq<u8>)
    requires
        has_metadata(s),
    ensures
        has_metadata(s + t),
{
    lemma_metadata_from_extend(s, t, 0);
}

/// A stream that opens with SOI followed by an APPn or COM marker has
/// metadata, whatever comes after.
pub proof fn law_marker_after_soi(marker: u8, rest: Seq<u8>)
    requires
        (0xe0 <= marker && marker <= 0xef) || marker == 0xfe,
    ensures
        has_metadata(seq![0xffu8, 0xd8u8, 0xffu8, marker] + rest),
{
    let s = seq![0xffu8, 0xd8u8, 0xffu8, marker] + rest;
    assert(s[0] == 0xff && s[1] == 0xd8 && s[2] == 0xff && s[3] == marker);
    assert(metadata_from(s, 2));
    assert(metadata_from(s, 0));
}

proof fn lemma_metadata_from_shift(p: Seq<u8>, r: Seq<u8>, i: nat)
    ensures
        metadata_from(p + r, p.len() + i) == metadata_from(r, i),
    decreases (if i < r.len() { r.len() - i } else { 0 }),
{
    let s = p + r;
    let pos = p.len() + i;
    if i + 1 >= r.len() {
    } else {
        assert(s[pos as int] == r[i as int]);
        assert(s[pos + 1int] == r[i + 1int]);
        if !is_fill(r[i as int]) || is_fill(r[i + 1int]) {
            lemma_metadata_from_shift(p, r, i + 1);
        } else {
            let m = i + 1;
            let marker = r[m as int];
            if marker == 0 {
                lemma_metadata_from_shift(p, r, m + 1);
            } else if is_metadata_marker(marker) {
            } else if is_standalone_marker(marker) {
                lemma_metadata_from_shift(p, r, m + 1);
            } else if m + 3 > r.len() {
            } else {
                assert(s[p.len() + m + 1int] == r[m + 1int]);
                assert(s[p.len() + m + 2int] == r[m + 2int]);
                assert(segment_length(s, p.len() + m as int) == segment_length(r, m as int));
                if segment_length(r, m as int) >= 2 {
                    lemma_metadata_from_shift(p, r, m + 1 + segment_length(r, m as int));
                }
            }
        }
    }
}

/// A byte that does not start a marker is passed over: it changes nothing
/// about whether what follows it has metadata.
pub proof fn law_plain_byte_is_passed_over(b: u8, rest: Seq<u8>)
    requires
        b != 0xff,
    ensures
        has_metadata(seq![b] + rest) == has_metadata(rest),
{
    let s = seq![b] + rest;
    assert(s[0] == b);
    lemma_metadata_from_shift(seq![b], rest, 0);
    if rest.len() > 0 {
        assert(metadata_from(s, 0) == metadata_from(s, 1));
    }
}

/// The start-of-image marker is stepped over: a stream that opens with SOI
/// has metadata exactly when what follows SOI has.
pub proof fn law_soi_is_stepped_over(rest: Seq<u8>)
    ensures
        has_metadata(seq![0xffu8, 0xd8u8] + rest) == has_metadata(rest),
{
    let s = seq![0xffu8, 0xd8u8] + rest;
    assert(s[0] == 0xff && s[1] == 0xd8);
    lemma_metadata_from_shift(seq![0xffu8, 0xd8u8], rest, 0);
}

/// A segment with a length field is skipped whole: whatever its payload
/// holds, even the bytes of an APPn or COM marker, only the bytes after the
/// segment decide whether there is metadata.
pub proof fn law_segment_payload_is_skipped(marker: u8, payload: Seq<u8>, rest: Seq<u8>)
    requires
        marker != 0x00 && marker != 0xff && marker != 0x01,
        !(0xd0 <= marker && marker <= 0xd9),
        !(0xe0 <= marker && marker <= 0xef),
        marker != 0xfe,
        payload.len() + 2 <= 0xffff,
    ensures
        has_metadata(
            seq![
                0xffu8,
                marker,
                ((payload.len() + 2) / 256) as u8,
                ((payload.len() + 2) % 256) as u8,
            ] + payload + rest,
        ) == has_metadata(rest),
{
    let header = seq![
        0xffu8,
        marker,
        ((payload.len() + 2) / 256) as u8,
        ((payload.len() + 2) % 256) as u8,
    ];
    let s = header + payload + rest;
    assert(s[0] == 0xff && s[1] == marker && s[2] == header[2] && s[3] == header[3]);
    assert(segment_length(s, 1) == payload.len() + 2);
    assert(s =~= (header + payload) + rest);
    lemma_metadata_from_shift(header + payload, rest, 0);
    assert(metadata_from(s, 0) == metadata_from(s, (header + payload).len()));
}

/// A stream without a single `0xff` byte has no metadata.
pub proof fn law_no_marker_no_metadata(s: Seq<u8>)
    requires
        forall|i: int| 0 <= i < s.len() ==> s[i] != 0xff,
    ensures
        !has_metadata(s),
{
    if has_metadata(s) {
        law_metadata_is_a_marker(s);
        let i = choose|i: int|
            0 < i < s.len() && #[trigger] s[i - 1] == 0xff && ((0xe0 <= s[i] && s[i] <= 0xef)
                || s[i] == 0xfe);
        assert(s[i - 1] != 0xff);
    }
}

/// APPn and COM markers are metadata wherever the scan meets them.
pub proof fn law_metadata_marker_found(marker: u8, rest: Seq<u8>)
    requires
        (0xe0 <= marker && marker <= 0xef) || marker == 0xfe,
    ensures
        has_metadata(seq![0xffu8, marker] + rest),
{
    let s = seq![0xffu8, marker] + rest;
    assert(s[0] == 0xff && s[1] == marker);
}

/// Standalone markers (TEM, RST0..RST7, SOI, EOI) and a stuffed zero are
/// stepped over: only what follows them decides.
pub proof fn law_standalone_markers_are_stepped_over(marker: u8, rest: Seq<u8>)
    requires
        marker == 0x00 || marker == 0x01 || (0xd0 <= marker && marker <= 0xd9),
    ensures
        has_metadata(seq![0xffu8, marker] + rest) == has_metadata(rest),
{
    let s = seq![0xffu8, marker] + rest;
    assert(s[0] == 0xff && s[1] == marker);
    lemma_metadata_from_shift(seq![0xffu8, marker], rest, 0);
}

/// A run of `0xff` fill bytes before a marker counts as one.
pub proof fn law_fill_bytes_collapse(rest: Seq<u8>)
    ensures
        has_metadata(seq![0xffu8, 0xffu8] + rest) == has_metadata(seq![0xffu8] + rest),
{
    let s = seq![0xffu8, 0xffu8] + rest;
    assert(s[0] == 0xff && s[1] == 0xff);
    assert(s =~= seq![0xffu8] + (seq![0xffu8] + rest));
    lemma_metadata_from_shift(seq![0xffu8], seq![0xffu8] + rest, 0);
}

/// A segment header that is cut short, or whose length is below two, ends
/// the scan: nothing after it counts.
pub proof fn law_broken_segment_ends_scan(marker: u8, high: u8, low: u8, rest: Seq<u8>)
    requires
        marker != 0x00 && marker != 0xff && marker != 0x01,
        !(0xd0 <= marker && marker <= 0xd9),
        !(0xe0 <= marker && marker <= 0xef),
        marker != 0xfe,
    ensures
        !has_metadata(seq![0xffu8, marker]),
        !has_metadata(seq![0xffu8, marker, high]),
        high == 0 && low < 2 ==> !has_metadata(seq![0xffu8, marker, high, low] + rest),
{
    let s = seq![0xffu8, marker, high, low] + rest;
    assert(s[0] == 0xff && s[1] == marker && s[2] == high && s[3] == low);
    let t = seq![0xffu8, marker];
    assert(t[0] == 0xff && t[1] == marker);
    let u = seq![0xffu8, marker, high];
    assert(u[0] == 0xff && u[1] == marker);
}

} // verus!
