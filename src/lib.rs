//! Scan engine of a remote memory inspector: value scans over a target's
//! address ranges, progressive filtering of the candidates, address
//! expressions over module bases and pointer dereferences.
//!
//! The target itself (reads, writes, suspension) is reached by the caller;
//! the functions here take what was read as plain values.

mod hexcode;
mod kinds;
mod compare;
mod search;
mod snapshot;
mod scan;
mod outcome;
mod filter;
mod session;
mod laws;
mod resolve;
mod guard;
mod events;
mod wire;
mod requests;
mod regions;
mod listing;

pub use hexcode::{decode_hex, encode_hex, hex_digit, hex_text, hex_value, is_hex_text, lemma_hex_round_trip};
pub use kinds::{data_type_name, filter_method_name, find_type_name, same_text, spec_is_float, spec_is_numeric, spec_is_signed, spec_width, DataType, FilterMethod, FindType};
pub use compare::{bytes_equal, compare_values, equality_passes, float_key, int_reading, is_nan_bits, le_signed, le_value, lemma_nan_never_equal_or_ordered, lemma_nan_never_exact, exact_matches, exact_passes, order_passes, passes, pow256, read_le, utf16_reading};
pub use search::{binary_search, lemma_search_finds_every_occurrence, next_occurrence, occurs_at, search_positions};
pub use snapshot::{append_block_candidates, block_bytes, block_candidates, candidate_view, capture_block, decode_block, filter_offsets, lz4_block, lz4_unblock, pass_offsets, refilter_block, refiltered, surviving_offsets, walk_offsets, walk_prefix, Candidate, SnapshotBlock};
pub use scan::{all_aligned, byte_hits, chunk_candidates, chunk_scanned, effective_align, matcher_overlap, plan_chunks, plan_matches, plan_scan, range_chunks, ranges_valid, regex_find_all, regex_is_match, regex_matches, scan_chunk, span_hits, view_candidates, Chunk, ChunkScan, Matcher, MemoryScanRequest, ScanError, ScanPlan, CHUNK_SIZE, REGEX_OVERLAP};
pub use outcome::{blocks_capture, lemma_plan_chunks_bounded, lemma_unrounded_lists_all, lemma_snapshot_report_is_rounded, plan_wf, run_scan, scanned_candidates, scanned_captures, scanned_found, summarize, summarized, ScanOutcome, ScanResult, MATERIALIZE_LIMIT, MAX_RESULTS};
pub use filter::{blocks_refiltered, candidate_invalid, candidate_kept, filter_blocks, filter_candidates, kept_candidates, same_block, some_block_corrupt, spec_min_count, survivor_count, usable, FilterError};
pub use session::{blocks_aligned, blocks_hold_data, holds_data, filter_done, lemma_method_name_injective, lemma_type_name_injective, method_of_name, named_method, named_type, snapshot_pass, still_held, type_of_name, lemma_survivors_come_from_start, materialized, read_targets_of, read_width, report, request_error, session_filtered, session_of, session_wf, sorted_permutation, sorted_unique_from, store_wf, MemoryFilterRequest, ScanSession, SessionStore};
pub use laws::{lemma_scanned_session_holds_every_occurrence, lemma_filter_narrows_candidates, lemma_filter_narrows_offsets, chunks_at, lemma_scan_finds_every_aligned_occurrence, reads_from, lemma_store_candidates_aligned, chunk_hits, lemma_straddling_pattern_is_found, compares_to_itself, reads_back, lemma_default_alignment, lemma_empty_range_has_no_chunks, lemma_kept_candidates_were_candidates, lemma_unchanged_filter_keeps_candidates, lemma_unchanged_filter_keeps_offsets, lemma_walk_is_aligned};
pub use resolve::{ascii_lower, base_start, basename, digit_value, digits_value, eval_expr, eval_sum, eval_term, is_delim, is_space, module_base, module_match, names_module, number_value, resolution, same_ignoring_case, skip_space, word_end, word_value, wrap_add, wrap_sub, ModuleInfo, ResolveError, ResolveStep, resolve_step};
pub use guard::{lemma_resume_at_most_once, resumes, PassGuard};
pub use events::{after_hex_prefixes, parse_pc, pc_value, pushed, queue_wf, EventQueue};
pub use wire::{frame_reads, le32, lz4_sized_block, push_read_frame, read_frame, read_frames, watch_code, watch_type_code};
pub use requests::{ExploreDirectoryRequest, OpenProcessRequest, ReadFileRequest, ReadMemoryRequest, RemoveBreakPointRequest, RemoveBreakPointResponse, RemoveWatchPointRequest, RemoveWatchPointResponse, ResolveAddrRequest, SetBreakPointRequest, SetBreakPointResponse, SetWatchPointRequest, SetWatchPointResponse, WriteMemoryRequest};
pub use regions::{is_white, skip_white, dashes, field_end, field_text, fields_from, first_dash, joined, line_region, parse_region_line, region_view, Region};
pub use listing::{char_count, find_char, find_not_space, i64_value, item_view, line_depth, line_end_at, line_entry, lines_from, listing, listing_state, parse_directory_structure, skip_to, EntryView, FileItem};
