//! The files beside a suffix-indexed full-text segment: their layouts, what is
//! written to them and read back, how tokens are collected for them, and the
//! dictionary that gives the tokens of several segments their ids.

pub mod block_offsets;
pub mod bytes;
pub mod collector_chunks;
pub mod collector_contents;
pub mod collector_data;
pub mod collector_handed;
pub mod collector_mem;
pub mod collector_ids;
pub mod collector_laws;
pub mod collector_spans;
pub mod collector_trace;
pub mod collector_v3;
pub mod collector_words;
pub mod compact_laws;
pub mod derived;
pub mod derived_laws;
pub mod dictionary;
pub mod dictionary_bloom;
pub mod dictionary_compact;
pub mod dictionary_fold;
pub mod dictionary_generation;
pub mod dictionary_laws;
pub mod dictionary_lookup;
pub mod dictionary_names;
pub mod dictionary_parts;
pub mod dictionary_pending;
pub mod dictionary_pidx;
pub mod dictionary_shapes;
pub mod dictionary_stats;
pub mod edit_distance;
pub mod file;
pub mod file_fuzzy;
pub mod file_postings;
pub mod file_v3;
pub mod file_walk;
pub mod freqmap;
pub mod fuzzy_laws;
pub mod gapmap;
pub mod gmap;
pub mod index_registry;
pub mod interceptor;
pub mod intern_key;
pub mod key_table;
pub mod lookup_cache;
pub mod merge_laws;
pub mod newtexts;
pub mod offset_table;
pub mod order;
pub mod overlap_siblings;
pub mod own_lens;
pub mod parents_table;
pub mod pidx_laws;
pub mod posmap;
pub mod postings;
pub mod postings_measure;
pub mod rebuild_laws;
pub mod registry_laws;
pub mod section_file;
pub mod sepmap;
pub mod sfxpost_v2;
pub mod sibling_index;
pub mod sibling_table;
pub mod stripped_laws;
pub mod suffix_terms;
pub mod term_dictionary;
pub mod term_laws;
pub mod termtexts;
pub mod termtexts_v3;
pub mod text;
pub mod text_order;
pub mod varint;
pub mod walk_laws;
pub mod word_map;
pub mod word_pos_map;
pub mod word_stripped;
