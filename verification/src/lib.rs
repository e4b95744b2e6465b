//! Lossless in-place JPEG optimisation: the verified decisions.
//!
//! The library decides whether a JPEG stream carries metadata markers, whether
//! a re-encoded candidate should replace the original, how sizes and counts are
//! reported, and which command-line paths are processed and in what order.

mod discover;
mod format;
mod metadata;
mod natural;
mod summary;

pub use discover::{
    ascii_lower, check_direct_file, direct_file_verdict, eq_ignore_ascii_case, extension,
    first_occurrences, is_first_occurrence, is_index_permutation, is_jpeg_file_name,
    is_jpeg_name, is_natural_safe, is_wanted_entry, last_dot, law_case_does_not_matter,
    law_every_identity_is_kept, law_jpeg_extensions_are_accepted, law_jpeg_names_end_in_jpeg,
    law_only_regular_files, law_repeats_are_dropped, letter_any_case, recased,
    spells_jpeg_extension,
    natural_sort_order, naturally_sorted, pairwise_comparable, sort_names_naturally, DirectFileError, EntryKind,
};
pub use format::{
    decimal, digit_char, format_number, format_size, group_thousands, kib_rounded,
    law_commas_every_three_digits, law_decimal_reads_back, law_digit_char,
    law_grouping_keeps_digits, law_size_in_kib, law_size_in_mib, mib_fraction, mib_hundredths,
    not_comma, number_text, size_text,
    without_commas,
};
pub use metadata::{
    contains_metadata, has_metadata, is_fill, is_metadata_marker, is_standalone_marker,
    law_marker_after_soi, law_metadata_is_a_marker, law_metadata_survives_appending,
    law_no_marker_no_metadata, law_plain_byte_is_passed_over, law_segment_payload_is_skipped,
    law_broken_segment_ends_scan, law_fill_bytes_collapse, law_metadata_marker_found,
    law_soi_is_stepped_over, law_standalone_markers_are_stepped_over,
    metadata_from, segment_length,
};
pub use natural::{
    alphanumeric, char_order, char_seq_order, comparable, digit_run, digits_value, int_order, is_ascii_digit,
    law_natural_order_reverses, law_natural_order_transitive, law_short_digit_runs, leading_digits, lexical_form,
    natural_compare, natural_compare_by, short_digit_runs, token_class, token_order, token_seq_order, tokens,
    unicode_alphanumeric, window_has_non_digit, NameOrder, Token,
};
pub use summary::{
    law_each_outcome_counts_once, law_failures_fail_the_run, law_room_for_outcomes,
    law_run_succeeds_without_failures, size_change, tally,
    tally_fits, SizeChange, Summary,
};

use vstd::prelude::*;

verus! {

/// What became of one file.
#[derive(Clone, Copy, Debug, PartialEq, Eq, Structural)]
pub enum Status {
    /// The file was replaced by its progressive re-encoding.
    Optimized,
    /// The file was left as it was.
    Unchanged,
}

/// The sizes of one file before and after optimisation.
#[derive(Clone, Copy, Debug, PartialEq, Eq, Structural)]
pub struct Optimization {
    pub original_size: u64,
    pub final_size: u64,
    pub status: Status,
}

impl Optimization {
    /// The number of bytes that optimisation removed; zero when the file grew.
    pub open spec fn saved(self) -> int {
        if self.final_size <= self.original_size {
            self.original_size - self.final_size
        } else {
            0
        }
    }

    /// Bytes saved: the original size less the final size, saturating at zero.
    #[must_use]
    pub fn bytes_saved(self) -> (saved: u64)
        ensures
            saved == self.saved(),
    {
        self.original_size.saturating_sub(self.final_size)
    }
}

/// The ways an input can be refused before it is re-encoded.
#[derive(Clone, Copy, Debug, PartialEq, Eq, Structural)]
pub enum InputError {
    /// The file holds no bytes at all.
    Empty,
}

/// Accepts any non-empty input; an empty one cannot be a JPEG.
pub fn check_input(original: &[u8]) -> (checked: Result<(), InputError>)
    ensures
        checked is Err <==> original@.len() == 0,
        checked matches Err(e) ==> e == InputError::Empty,
{
    if original.len() == 0 {
        Err(InputError::Empty)
    } else {
        Ok(())
    }
}

/// Why the encoder's output buffer cannot be taken.
#[derive(Clone, Copy, Debug, PartialEq, Eq, Structural)]
pub enum OutputError {
    /// The encoder handed back no buffer, or an empty one.
    NoOutput,
    /// The buffer is longer than an address can span.
    TooLarge,
}

/// The length to copy out of the encoder's output buffer, given whether the
/// buffer exists and the size the encoder reported.
pub fn output_length(present: bool, size: u64) -> (length: Result<usize, OutputError>)
    ensures
        !present || size == 0 ==> length == Err::<usize, OutputError>(OutputError::NoOutput),
        present && size != 0 && size > usize::MAX ==> length == Err::<usize, OutputError>(
            OutputError::TooLarge,
        ),
        present && size != 0 && size <= usize::MAX ==> length == Ok::<usize, OutputError>(
            size as usize,
        ),
{
    if !present || size == 0 {
        return Err(OutputError::NoOutput);
    }
    if size > usize::MAX as u64 {
        return Err(OutputError::TooLarge);
    }
    Ok(size as usize)
}

/// Whether the candidate is to replace the original: it does when it is
/// strictly smaller, or when the original carries metadata that the candidate
/// drops.
pub open spec fn replaces(original: Seq<u8>, candidate: Seq<u8>) -> bool {
    candidate.len() < original.len() || has_metadata(original)
}

/// Decides whether `candidate` replaces `original`.
pub fn should_replace(original: &[u8], candidate: &[u8]) -> (replace: bool)
    ensures
        replace == replaces(original@, candidate@),
{
    candidate.len() < original.len() || contains_metadata(original)
}

/// The decision taken for one file once its candidate re-encoding exists.
#[derive(Clone, Copy, Debug, PartialEq, Eq, Structural)]
pub enum Plan {
    /// Leave the file as it is; the outcome to report.
    Keep(Optimization),
    /// Write the candidate over the file; the outcome to report once written.
    Replace(Optimization),
}

impl Plan {
    /// The outcome that the plan reports.
    pub open spec fn outcome(self) -> Optimization {
        match self {
            Plan::Keep(o) => o,
            Plan::Replace(o) => o,
        }
    }
}

/// The plan for an original and its candidate re-encoding.
pub open spec fn planned(original: Seq<u8>, candidate: Seq<u8>) -> Plan {
    if replaces(original, candidate) {
        Plan::Replace(
            Optimization {
                original_size: original.len() as u64,
                final_size: candidate.len() as u64,
                status: Status::Optimized,
            },
        )
    } else {
        Plan::Keep(
            Optimization {
                original_size: original.len() as u64,
                final_size: original.len() as u64,
                status: Status::Unchanged,
            },
        )
    }
}

/// Chooses between keeping the original and writing the candidate, and the
/// sizes to report either way.
pub fn plan_optimization(original: &[u8], candidate: &[u8]) -> (plan: Plan)
    ensures
        plan == planned(original@, candidate@),
        plan.outcome().original_size == original@.len(),
        plan is Replace ==> plan.outcome().final_size == candidate@.len(),
        plan is Keep ==> plan.outcome().final_size == original@.len(),
{
    let original_size = original.len() as u64;
    if !should_replace(original, candidate) {
        Plan::Keep(
            Optimization {
                original_size,
                final_size: original_size,
                status: Status::Unchanged,
            },
        )
    } else {
        Plan::Replace(
            Optimization {
                original_size,
                final_size: candidate.len() as u64,
                status: Status::Optimized,
            },
        )
    }
}

/// A file that is kept reports the status `Unchanged` and saves nothing; a
/// file that is replaced reports `Optimized`.
pub proof fn law_kept_files_save_nothing(original: Seq<u8>, candidate: Seq<u8>)
    requires
        original.len() <= u64::MAX,
        candidate.len() <= u64::MAX,
    ensures
        planned(original, candidate) is Keep ==> planned(original, candidate).outcome().saved() == 0
            && planned(original, candidate).outcome().status == Status::Unchanged,
        planned(original, candidate) is Replace ==> planned(original, candidate).outcome().status
            == Status::Optimized,
{
}

/// A file without metadata is replaced only by a strictly smaller candidate,
/// and the bytes saved are the difference in size.
pub proof fn law_replacement_without_metadata_shrinks(original: Seq<u8>, candidate: Seq<u8>)
    requires
        original.len() <= u64::MAX,
        candidate.len() <= u64::MAX,
        !has_metadata(original),
        planned(original, candidate) is Replace,
    ensures
        candidate.len() < original.len(),
        planned(original, candidate).outcome().saved() == original.len() - candidate.len(),
{
}

/// A file with metadata is always replaced, even by a larger candidate, and
/// reports the candidate's size.
pub proof fn law_metadata_forces_replacement(original: Seq<u8>, candidate: Seq<u8>)
    requires
        has_metadata(original),
    ensures
        replaces(original, candidate),
        planned(original, candidate) == Plan::Replace(
            Optimization {
                original_size: original.len() as u64,
                final_size: candidate.len() as u64,
                status: Status::Optimized,
            },
        ),
{
}

/// Any strictly smaller candidate replaces the file, by however little it
/// shrinks, and the file reports the candidate's size.
pub proof fn law_smaller_candidate_replaces(original: Seq<u8>, candidate: Seq<u8>)
    requires
        candidate.len() < original.len(),
    ensures
        replaces(original, candidate),
        planned(original, candidate) == Plan::Replace(
            Optimization {
                original_size: original.len() as u64,
                final_size: candidate.len() as u64,
                status: Status::Optimized,
            },
        ),
{
}

/// A file without metadata whose candidate is no smaller is left as it is,
/// and reports its own size twice.
pub proof fn law_unshrunk_file_without_metadata_is_kept(original: Seq<u8>, candidate: Seq<u8>)
    requires
        !has_metadata(original),
        candidate.len() >= original.len(),
    ensures
        !replaces(original, candidate),
        planned(original, candidate) == Plan::Keep(
            Optimization {
                original_size: original.len() as u64,
                final_size: original.len() as u64,
                status: Status::Unchanged,
            },
        ),
{
}

/// The bytes saved make up the difference between the sizes when the file
/// did not grow, and are zero when it grew.
pub proof fn law_saved_bytes(o: Optimization)
    ensures
        o.final_size <= o.original_size ==> o.saved() + o.final_size == o.original_size,
        o.final_size > o.original_size ==> o.saved() == 0,
        o.saved() >= 0,
{
}

} // verus!
