//! The files a dictionary is made of, by name.

use vstd::prelude::*;
use vstd::string::*;

use crate::text;
use crate::text::{push_decimal, push_text};

verus! {

/// The extension of a group index.
pub const GROUP_INDEX_EXT: &'static str = "pidx";

/// The extensions of the files of one generation of one field.
pub const GENERATION_EXTENSIONS: [&'static str; 3] = ["sfx", "termtexts", "pidx"];

/// What the names of a generation's files start with.
pub open spec fn bundle_text(generation: u64) -> Seq<char> {
    seq!['d', 'i', 'c', 't', '-'] + text::decimal(generation as nat) + seq!['.']
}

/// The name of a generation's file for one field.
pub open spec fn file_text(generation: u64, field_id: u32, ext: Seq<char>) -> Seq<char> {
    bundle_text(generation) + (text::decimal(field_id as nat) + seq!['.'] + ext)
}

/// The name of a pending segment's file for one field.
pub open spec fn pair_text(segment: Seq<char>, field_id: u32, ext: Seq<char>) -> Seq<char> {
    segment + seq!['.'] + text::decimal(field_id as nat) + seq!['.'] + ext
}

/// The name of a generation's file for one field.
pub fn dictionary_file_name(generation: u64, field_id: u32, ext: &str) -> (name: String)
    ensures
        name@ == file_text(generation, field_id, ext@),
{
    proof {
        reveal_strlit(".");
    }
    let mut name = dictionary_bundle_id(generation);
    push_decimal(&mut name, field_id as u64);
    push_text(&mut name, ".");
    push_text(&mut name, ext);
    assert(name@ =~= file_text(generation, field_id, ext@));
    name
}

/// What the names of a generation's files start with, up to the dot, so that
/// one generation's number is never the start of another's.
pub fn dictionary_bundle_id(generation: u64) -> (name: String)
    ensures
        name@ == bundle_text(generation),
{
    proof {
        reveal_strlit("dict-");
        reveal_strlit(".");
    }
    let mut name = String::new();
    push_text(&mut name, "dict-");
    push_decimal(&mut name, generation);
    push_text(&mut name, ".");
    assert(name@ =~= bundle_text(generation));
    name
}

/// The name of a pending segment's file for one field.
pub fn pending_file_name(segment: &str, field_id: u32, ext: &str) -> (name: String)
    ensures
        name@ == pair_text(segment@, field_id, ext@),
{
    proof {
        reveal_strlit(".");
    }
    let mut name = String::new();
    push_text(&mut name, segment);
    push_text(&mut name, ".");
    push_decimal(&mut name, field_id as u64);
    push_text(&mut name, ".");
    push_text(&mut name, ext);
    assert(name@ =~= pair_text(segment@, field_id, ext@));
    name
}

/// The names of the files of a generation, field by field.
pub fn generation_files(generation: u64, field_ids: &[u32]) -> (names: Vec<String>)
    ensures
        names@.len() == 3 * field_ids@.len(),
        forall|i: int|
            0 <= i < names@.len() ==> (#[trigger] names@[i])@ == file_text(
                generation,
                field_ids@[i / 3],
                GENERATION_EXTENSIONS@[i % 3]@,
            ),
{
    let mut names: Vec<String> = Vec::new();
    let mut f: usize = 0;
    while f < field_ids.len()
        invariant
            f <= field_ids@.len(),
            names@.len() == 3 * f,
            forall|i: int|
                0 <= i < names@.len() ==> (#[trigger] names@[i])@ == file_text(
                    generation,
                    field_ids@[i / 3],
                    GENERATION_EXTENSIONS@[i % 3]@,
                ),
        decreases field_ids@.len() - f,
    {
        let mut k: usize = 0;
        while k < 3
            invariant
                k <= 3,
                f < field_ids@.len(),
                names@.len() == 3 * f + k,
                forall|i: int|
                    0 <= i < names@.len() ==> (#[trigger] names@[i])@ == file_text(
                        generation,
                        field_ids@[i / 3],
                        GENERATION_EXTENSIONS@[i % 3]@,
                    ),
            decreases 3 - k,
        {
            names.push(dictionary_file_name(generation, field_ids[f], GENERATION_EXTENSIONS[k]));
            k += 1;
        }
        f += 1;
    }
    names
}

/// The prefix of a generation's names is that of its own files only.
pub proof fn a_bundle_holds_its_generation_only(
    generation: u64,
    other: u64,
    field_id: u32,
    ext: Seq<char>,
)
    ensures
        bundle_text(generation).is_prefix_of(file_text(other, field_id, ext)) <==> generation
            == other,
{
    let b = bundle_text(generation);
    let f = file_text(other, field_id, ext);
    let pre = seq!['d', 'i', 'c', 't', '-'];
    let g = text::decimal(generation as nat);
    let o = text::decimal(other as nat);
    let rest = text::decimal(field_id as nat) + seq!['.'] + ext;
    if generation == other {
        assert(f.subrange(0, b.len() as int) =~= b);
    }
    if b.is_prefix_of(f) {
        let tail = f.subrange(b.len() as int, f.len() as int);
        let x = f.subrange(5, f.len() as int);
        assert(x =~= o + seq!['.'] + rest);
        assert(f =~= b + tail);
        assert(x =~= g + seq!['.'] + tail);
        text::lemma_digits(generation as nat, '.');
        text::lemma_digits(other as nat, '.');
        text::lemma_split_first(g, tail, o, rest, '.');
        text::lemma_decimal_injective(generation as nat, other as nat);
    }
}

/// Generations and fields have files of their own names.
pub proof fn file_names_tell_fields_apart(
    generation: u64,
    field_id: u32,
    ext: Seq<char>,
    generation2: u64,
    field_id2: u32,
    ext2: Seq<char>,
)
    requires
        file_text(generation, field_id, ext) == file_text(generation2, field_id2, ext2),
    ensures
        generation == generation2,
        field_id == field_id2,
        ext == ext2,
{
    let f = file_text(generation, field_id, ext);
    let rest = text::decimal(field_id as nat) + seq!['.'] + ext;
    let rest2 = text::decimal(field_id2 as nat) + seq!['.'] + ext2;
    assert(f.subrange(0, bundle_text(generation).len() as int) =~= bundle_text(generation));
    assert(bundle_text(generation).is_prefix_of(f));
    a_bundle_holds_its_generation_only(generation, generation2, field_id2, ext2);
    let n = bundle_text(generation).len() as int;
    assert(rest =~= f.subrange(n, f.len() as int));
    assert(rest2 =~= f.subrange(n, f.len() as int));
    text::lemma_digits(field_id as nat, '.');
    text::lemma_digits(field_id2 as nat, '.');
    text::lemma_split_first(text::decimal(field_id as nat), ext, text::decimal(field_id2 as nat), ext2, '.');
    text::lemma_decimal_injective(field_id as nat, field_id2 as nat);
}

} // verus!
