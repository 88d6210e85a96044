//! The table directory layout: path and filename construction, filename
//! parsing, and the reader's filter over a directory listing.

use vstd::prelude::*;
use vstd::set_lib::{lemma_int_range, lemma_len_subset, set_int_range};
use vstd::string::StrSliceExecFns;
use vstd::string::StringExecFns;

use crate::strutil::{
    parse_u64_str, spec_all_digits, spec_decimal, spec_digits_val, u64_to_string, usize_to_string,
};

verus! {

/// The separator between path components.
pub open spec fn spec_path_sep() -> Seq<char> {
    seq!['/']
}

fn path_sep_str() -> (r: &'static str)
    ensures
        r@ == spec_path_sep(),
{
    let r = "/";
    proof {
        reveal_strlit("/");
        assert(r@ =~= spec_path_sep());
    }
    r
}

/// The fixed head of every table filename.
pub open spec fn spec_table_marker() -> Seq<char> {
    seq!['t', 'a', 'b', 'l', 'e', '-']
}

fn table_marker_str() -> (r: &'static str)
    ensures
        r@ == spec_table_marker(),
{
    let r = "table-";
    proof {
        reveal_strlit("table-");
        assert(r@ =~= spec_table_marker());
    }
    r
}

fn dash_str() -> (r: &'static str)
    ensures
        r@ == seq!['-'],
{
    let r = "-";
    proof {
        reveal_strlit("-");
        assert(r@ =~= seq!['-']);
    }
    r
}

fn underscore_str() -> (r: &'static str)
    ensures
        r@ == seq!['_'],
{
    let r = "_";
    proof {
        reveal_strlit("_");
        assert(r@ =~= seq!['_']);
    }
    r
}

/// The filename that encodes a table's chain count, chain length and index.
pub open spec fn spec_table_filename(chain_number: u64, chain_length: u64, table_index: int) -> Seq<
    char,
> {
    spec_table_marker() + spec_decimal(chain_number as nat) + seq!['-'] + spec_decimal(
        chain_length as nat,
    ) + seq!['_'] + spec_decimal(table_index as nat)
}

/// Law: within one parameter pair, the filename determines the index.
pub proof fn lemma_table_filename_injective(
    chain_number: u64,
    chain_length: u64,
    i1: int,
    i2: int,
)
    requires
        0 <= i1,
        0 <= i2,
        spec_table_filename(chain_number, chain_length, i1) == spec_table_filename(
            chain_number,
            chain_length,
            i2,
        ),
    ensures
        i1 == i2,
{
    let head = spec_table_marker() + spec_decimal(chain_number as nat) + seq!['-'] + spec_decimal(
        chain_length as nat,
    ) + seq!['_'];
    let f1 = spec_table_filename(chain_number, chain_length, i1);
    let f2 = spec_table_filename(chain_number, chain_length, i2);
    assert(f1 =~= head + spec_decimal(i1 as nat));
    assert(f2 =~= head + spec_decimal(i2 as nat));
    assert(spec_decimal(i1 as nat) =~= f1.skip(head.len() as int));
    assert(spec_decimal(i2 as nat) =~= f2.skip(head.len() as int));
    crate::strutil::lemma_decimal_injective(i1 as nat, i2 as nat);
}

/// Some entry of the listing bears this very name.
pub open spec fn spec_name_taken(names: Seq<String>, filename: Seq<char>) -> bool {
    exists|j: int| 0 <= j < names.len() && (#[trigger] names[j])@ == filename
}

/// Where a parameter tuple's tables live and how their files are named.
pub struct TableDirectory {
    pub root_directory_path: String,
    pub hash_size_in_bytes: usize,
    pub reduction_prefix_size_in_bytes: usize,
    pub table_file_format: String,
}

impl Clone for TableDirectory {
    fn clone(&self) -> (r: Self)
        ensures
            r.root_directory_path@ == self.root_directory_path@,
            r.hash_size_in_bytes == self.hash_size_in_bytes,
            r.reduction_prefix_size_in_bytes == self.reduction_prefix_size_in_bytes,
            r.table_file_format@ == self.table_file_format@,
    {
        TableDirectory {
            root_directory_path: self.root_directory_path.clone(),
            hash_size_in_bytes: self.hash_size_in_bytes,
            reduction_prefix_size_in_bytes: self.reduction_prefix_size_in_bytes,
            table_file_format: self.table_file_format.clone(),
        }
    }
}

impl TableDirectory {
    /// The directory that holds this parameter tuple's tables:
    /// root/<hash size>/<prefix size>/<format>.
    pub open spec fn spec_path(self) -> Seq<char> {
        self.root_directory_path@ + spec_path_sep() + spec_decimal(self.hash_size_in_bytes as nat)
            + spec_path_sep() + spec_decimal(self.reduction_prefix_size_in_bytes as nat)
            + spec_path_sep() + self.table_file_format@
    }

    /// The full path of the table file with the given parameters.
    pub open spec fn spec_table_filepath(
        self,
        chain_number: u64,
        chain_length: u64,
        table_index: int,
    ) -> Seq<char> {
        self.spec_path() + spec_path_sep() + spec_table_filename(
            chain_number,
            chain_length,
            table_index,
        )
    }

    pub fn new(
        root_directory_path: &str,
        hash_size_in_bytes: usize,
        reduction_prefix_size_in_bytes: usize,
        table_file_format: &str,
    ) -> (r: Self)
        ensures
            r.root_directory_path@ == root_directory_path@,
            r.hash_size_in_bytes == hash_size_in_bytes,
            r.reduction_prefix_size_in_bytes == reduction_prefix_size_in_bytes,
            r.table_file_format@ == table_file_format@,
    {
        TableDirectory {
            root_directory_path: root_directory_path.to_owned(),
            hash_size_in_bytes,
            reduction_prefix_size_in_bytes,
            table_file_format: table_file_format.to_owned(),
        }
    }

    pub fn path(&self) -> (r: String)
        ensures
            r@ == self.spec_path(),
    {
        let mut directory_path = self.root_directory_path.clone();
        directory_path.append(path_sep_str());
        let hash_size = usize_to_string(self.hash_size_in_bytes);
        directory_path.append(hash_size.as_str());
        directory_path.append(path_sep_str());
        let prefix_size = usize_to_string(self.reduction_prefix_size_in_bytes);
        directory_path.append(prefix_size.as_str());
        directory_path.append(path_sep_str());
        directory_path.append(self.table_file_format.as_str());
        directory_path
    }

    pub fn table_filepath(
        &self,
        chain_number: u64,
        chain_length: u64,
        table_index: usize,
    ) -> (r: String)
        ensures
            r@ == self.spec_table_filepath(chain_number, chain_length, table_index as int),
    {
        let mut filepath = self.path();
        filepath.append(path_sep_str());
        let filename = table_filename(chain_number, chain_length, table_index);
        filepath.append(filename.as_str());
        filepath
    }

    /// The smallest index at or above `start_index` whose filename does not
    /// occur in the directory listing `existing_filenames`.
    pub fn get_free_index(
        &self,
        chain_number: u64,
        chain_length: u64,
        start_index: usize,
        existing_filenames: &Vec<String>,
    ) -> (r: usize)
        requires
            start_index + existing_filenames@.len() + 1 <= usize::MAX,
        ensures
            start_index <= r <= start_index + existing_filenames@.len(),
            forall|j: int|
                0 <= j < existing_filenames@.len() ==> (#[trigger] existing_filenames@[j])@
                    != spec_table_filename(chain_number, chain_length, r as int),
            forall|idx: int|
                start_index <= idx < r ==> spec_name_taken(
                    existing_filenames@,
                    #[trigger] spec_table_filename(chain_number, chain_length, idx),
                ),
    {
        let ghost n = existing_filenames@.len() as int;
        let mut table_index = start_index;
        let ghost positions: Seq<int> = Seq::empty();

        loop
            invariant
                start_index <= table_index,
                table_index - start_index == positions.len(),
                positions.no_duplicates(),
                forall|k: int| 0 <= k < positions.len() ==> 0 <= #[trigger] positions[k] < n,
                forall|k: int|
                    0 <= k < positions.len() ==> (existing_filenames@[#[trigger] positions[k]])@
                        == spec_table_filename(chain_number, chain_length, start_index + k),
                n == existing_filenames@.len(),
                start_index + n + 1 <= usize::MAX,
            ensures
                start_index <= table_index <= start_index + n,
                forall|j: int|
                    0 <= j < existing_filenames@.len() ==> (#[trigger] existing_filenames@[j])@
                        != spec_table_filename(chain_number, chain_length, table_index as int),
                forall|k: int| 0 <= k < table_index - start_index ==> 0 <= #[trigger] positions[k] < n,
                forall|k: int|
                    0 <= k < table_index - start_index ==> (existing_filenames@[#[trigger] positions[k]])@
                        == spec_table_filename(chain_number, chain_length, start_index + k),
            decreases n + 1 - (table_index - start_index),
        {
            proof {
                lemma_positions_bound(positions, n);
            }
            let filename = table_filename(chain_number, chain_length, table_index);
            match find_string(existing_filenames, &filename) {
                Some(j) => {
                    proof {
                        assert forall|k: int| 0 <= k < positions.len() implies positions[k]
                            != j as int by {
                            if positions[k] == j as int {
                                lemma_table_filename_injective(
                                    chain_number,
                                    chain_length,
                                    start_index + k,
                                    table_index as int,
                                );
                            }
                        }
                    }
                    proof {
                        positions = positions.push(j as int);
                    }
                    table_index += 1;
                },
                None => {
                    break ;
                },
            }
        }

        proof {
            assert forall|idx: int| start_index <= idx < table_index implies spec_name_taken(
                existing_filenames@,
                #[trigger] spec_table_filename(chain_number, chain_length, idx),
            ) by {
                let k = idx - start_index;
                let witness = positions[k];
                assert(0 <= witness < existing_filenames@.len());
                assert(start_index + k == idx);
                assert((existing_filenames@[witness])@ == spec_table_filename(
                    chain_number,
                    chain_length,
                    idx,
                ));
            }
        }

        table_index
    }

    /// The full path of the first free index at or above `start_index`.
    pub fn get_free_filepath(
        &self,
        chain_number: u64,
        chain_length: u64,
        start_index: usize,
        existing_filenames: &Vec<String>,
    ) -> (r: String)
        requires
            start_index + existing_filenames@.len() + 1 <= usize::MAX,
        ensures
            exists|idx: int|
                start_index <= idx <= start_index + existing_filenames@.len() && r@
                    == self.spec_table_filepath(chain_number, chain_length, idx) && forall|j: int|
                    0 <= j < existing_filenames@.len() ==> (#[trigger] existing_filenames@[j])@
                        != spec_table_filename(chain_number, chain_length, idx),
    {
        let free_index = self.get_free_index(
            chain_number,
            chain_length,
            start_index,
            existing_filenames,
        );

        self.table_filepath(chain_number, chain_length, free_index)
    }

    /// Keep the first `tables_number` listing entries that advertise at
    /// least `chain_number` chains of exactly `chain_length`, as full paths.
    pub fn read_table_filepaths(
        &self,
        filenames: &Vec<String>,
        chain_number: u64,
        chain_length: u64,
        tables_number: usize,
    ) -> (r: Vec<String>)
        ensures
            ({
                let accepted = spec_accepted_names(
                    spec_name_views(filenames@),
                    chain_number,
                    chain_length,
                );
                &&& r@.len() <= tables_number
                &&& r@.len() == (if accepted.len() <= tables_number {
                    accepted.len() as int
                } else {
                    tables_number as int
                })
                &&& forall|k: int|
                    0 <= k < r@.len() ==> (#[trigger] r@[k])@ == self.spec_path() + spec_path_sep()
                        + accepted[k]
            }),
    {
        let ghost names = spec_name_views(filenames@);
        let mut proper_filepaths: Vec<String> = Vec::new();
        let mut i: usize = 0;

        proof {
            assert(names.take(0) =~= Seq::<Seq<char>>::empty());
        }
        while i < filenames.len()
            invariant
                i <= filenames@.len(),
                names == spec_name_views(filenames@),
                ({
                    let accepted = spec_accepted_names(
                        names.take(i as int),
                        chain_number,
                        chain_length,
                    );
                    &&& proper_filepaths@.len() == (if accepted.len() <= tables_number {
                        accepted.len() as int
                    } else {
                        tables_number as int
                    })
                    &&& forall|k: int|
                        0 <= k < proper_filepaths@.len() ==> (#[trigger] proper_filepaths@[k])@
                            == self.spec_path() + spec_path_sep() + accepted[k]
                }),
            decreases filenames@.len() - i,
        {
            let ghost prefix = names.take(i as int);
            let name = &filenames[i];
            let correct = is_correct(name.as_str(), chain_number, chain_length);
            proof {
                assert(names.take(i + 1).drop_last() =~= prefix);
                assert(names.take(i + 1).last() == name@);
            }
            if correct && proper_filepaths.len() < tables_number {
                let mut filepath = self.path();
                filepath.append(path_sep_str());
                filepath.append(name.as_str());
                proper_filepaths.push(filepath);
            }
            i += 1;
        }
        proof {
            assert(names.take(filenames@.len() as int) =~= names);
        }

        proper_filepaths
    }
}

/// A duplicate-free list of positions into a listing of length `n` cannot
/// outgrow the listing.
proof fn lemma_positions_bound(positions: Seq<int>, n: int)
    requires
        n >= 0,
        positions.no_duplicates(),
        forall|k: int| 0 <= k < positions.len() ==> 0 <= #[trigger] positions[k] < n,
    ensures
        positions.len() <= n,
{
    positions.unique_seq_to_set();
    lemma_int_range(0, n);
    assert(positions.to_set().subset_of(set_int_range(0, n))) by {
        assert forall|x: int| positions.to_set().contains(x) implies set_int_range(0, n).contains(
            x,
        ) by {
            let k = choose|k: int| 0 <= k < positions.len() && positions[k] == x;
        }
    }
    lemma_len_subset(positions.to_set(), set_int_range(0, n));
}

/// Render the filename for one table.
pub fn table_filename(chain_number: u64, chain_length: u64, table_index: usize) -> (r: String)
    ensures
        r@ == spec_table_filename(chain_number, chain_length, table_index as int),
{
    let mut filename = table_marker_str().to_owned();
    let number = u64_to_string(chain_number);
    filename.append(number.as_str());
    filename.append(dash_str());
    let length = u64_to_string(chain_length);
    filename.append(length.as_str());
    filename.append(underscore_str());
    let index = usize_to_string(table_index);
    filename.append(index.as_str());
    filename
}

/// The position of the first listing entry equal to `s`.
fn find_string(haystack: &Vec<String>, s: &String) -> (r: Option<usize>)
    ensures
        match r {
            Some(j) => j < haystack@.len() && (haystack@[j as int])@ == s@,
            None => forall|j: int| 0 <= j < haystack@.len() ==> (#[trigger] haystack@[j])@ != s@,
        },
{
    let mut j: usize = 0;
    while j < haystack.len()
        invariant
            j <= haystack@.len(),
            forall|k: int| 0 <= k < j ==> (#[trigger] haystack@[k])@ != s@,
        decreases haystack@.len() - j,
    {
        if s.eq(&haystack[j]) {
            return Some(j);
        }
        j += 1;
    }
    None
}

/// A character that separates the fields of a table filename.
pub open spec fn spec_is_separator(c: char) -> bool {
    c == '-' || c == '_'
}

/// The fields of a name, split on '-' and '_' (an empty name yields one
/// empty field).
pub open spec fn spec_split(s: Seq<char>) -> Seq<Seq<char>>
    decreases s.len(),
{
    if s.len() == 0 {
        seq![Seq::<char>::empty()]
    } else if spec_is_separator(s[0]) {
        seq![Seq::<char>::empty()] + spec_split(s.drop_first())
    } else {
        let rest = spec_split(s.drop_first());
        seq![seq![s[0]] + rest[0]] + rest.drop_first()
    }
}

pub proof fn lemma_split_len(s: Seq<char>)
    ensures
        spec_split(s).len() >= 1,
    decreases s.len(),
{
    if s.len() > 0 {
        lemma_split_len(s.drop_first());
    }
}

/// What a decimal field of a filename denotes, if anything.
pub open spec fn spec_parse_field(w: Seq<char>) -> Option<u64> {
    if w.len() > 0 && spec_all_digits(w) && spec_digits_val(w) <= u64::MAX {
        Some(spec_digits_val(w) as u64)
    } else {
        None
    }
}

/// What a filename denotes: chain count, chain length and table index, read
/// from its second, third and fourth field.
pub open spec fn spec_parse_filename(s: Seq<char>) -> Option<(u64, u64, usize)> {
    let parts = spec_split(s);
    if parts.len() < 4 {
        None
    } else {
        match (spec_parse_field(parts[1]), spec_parse_field(parts[2]), spec_parse_field(parts[3])) {
            (Some(chain_number), Some(chain_length), Some(index)) => if index <= usize::MAX as u64 {
                Some((chain_number, chain_length, index as usize))
            } else {
                None
            },
            _ => None,
        }
    }
}

/// Split a string on '-' and '_' into field windows `[start, end)`.
fn split_windows(s: &str) -> (r: Vec<(usize, usize)>)
    ensures
        r@.len() == spec_split(s@).len(),
        forall|k: int|
            0 <= k < r@.len() ==> 0 <= (#[trigger] r@[k]).0 <= r@[k].1 <= s@.len() && s@.subrange(
                r@[k].0 as int,
                r@[k].1 as int,
            ) == spec_split(s@)[k],
{
    let len = s.unicode_len();
    let mut parts: Vec<(usize, usize)> = Vec::new();
    parts.push((len, len));
    proof {
        assert(s@.skip(len as int).len() == 0);
        assert(s@.subrange(len as int, len as int) =~= Seq::<char>::empty());
    }

    let mut i = len;
    while i > 0
        invariant
            i <= len,
            len == s@.len(),
            parts@.len() == spec_split(s@.skip(i as int)).len(),
            parts@.len() >= 1,
            parts@[0].0 == i,
            forall|k: int|
                0 <= k < parts@.len() ==> i <= (#[trigger] parts@[k]).0 <= parts@[k].1 <= len
                    && s@.subrange(parts@[k].0 as int, parts@[k].1 as int) == spec_split(
                    s@.skip(i as int),
                )[k],
        decreases i,
    {
        let c = s.get_char(i - 1);
        let ghost old_parts = parts@;
        let ghost tail = s@.skip(i as int);
        proof {
            assert(s@.skip(i - 1).drop_first() =~= tail);
            assert(s@.skip(i - 1)[0] == s@[i - 1]);
            lemma_split_len(tail);
        }
        if c == '-' || c == '_' {
            parts.insert(0, (i - 1, i - 1));
            proof {
                assert(s@.subrange(i - 1, i - 1) =~= Seq::<char>::empty());
                assert(spec_split(s@.skip(i - 1)) =~= seq![Seq::<char>::empty()] + spec_split(
                    tail,
                ));
                assert(parts@ =~= seq![(((i - 1) as usize), ((i - 1) as usize))] + old_parts);
            }
        } else {
            let first = parts.remove(0);
            parts.insert(0, (i - 1, first.1));
            proof {
                let rest = spec_split(tail);
                assert(spec_split(s@.skip(i - 1)) =~= seq![seq![s@[i - 1]] + rest[0]]
                    + rest.drop_first());
                assert(parts@ =~= seq![(((i - 1) as usize), first.1)] + old_parts.drop_first());
                assert(s@.subrange(i - 1, first.1 as int) =~= seq![s@[i - 1]] + s@.subrange(
                    i as int,
                    first.1 as int,
                ));
                assert(s@.subrange(first.0 as int, first.1 as int) == rest[0]);
                assert(first.0 == i);
            }
        }
        i -= 1;
    }
    proof {
        assert(s@.skip(0) =~= s@);
    }
    parts
}

/// Parse a table filename into its chain count, chain length and index.
pub fn parse_filename(filename: &str) -> (r: Result<(u64, u64, usize), &'static str>)
    ensures
        match r {
            Ok(t) => spec_parse_filename(filename@) == Some(t),
            Err(m) => spec_parse_filename(filename@) is None && m@ == "Invalid file name"@,
        },
{
    let parts = split_windows(filename);

    if parts.len() < 4 {
        return Err("Invalid file name");
    }

    let (s1, e1) = parts[1];
    let chain_number = match parse_u64_str(filename, s1, e1) {
        Some(n) => n,
        None => { return Err("Invalid file name") },
    };
    let (s2, e2) = parts[2];
    let chain_length = match parse_u64_str(filename, s2, e2) {
        Some(n) => n,
        None => { return Err("Invalid file name") },
    };
    let (s3, e3) = parts[3];
    let table_index = match parse_u64_str(filename, s3, e3) {
        Some(n) => n,
        None => { return Err("Invalid file name") },
    };

    if table_index > usize::MAX as u64 {
        return Err("Invalid file name");
    }

    Ok((chain_number, chain_length, table_index as usize))
}

/// Whether a listing entry advertises at least `chain_number` chains of
/// exactly `chain_length`.
pub open spec fn spec_is_correct(name: Seq<char>, chain_number: u64, chain_length: u64) -> bool {
    match spec_parse_filename(name) {
        Some((parsed_chain_number, parsed_chain_length, _)) => {
            &&& parsed_chain_number >= chain_number
            &&& parsed_chain_length == chain_length
        },
        None => false,
    }
}

/// Decide whether a table file, by its name, can serve a request for
/// `chain_number` chains of `chain_length`: bigger tables are allowed, a
/// different chain length is not.
pub fn is_correct(filename: &str, chain_number: u64, chain_length: u64) -> (r: bool)
    ensures
        r == spec_is_correct(filename@, chain_number, chain_length),
{
    let (parsed_chain_number, parsed_chain_length, _) = match parse_filename(filename) {
        Ok(parsed_values) => parsed_values,
        Err(_) => { return false },
    };

    if chain_number > parsed_chain_number {
        return false;
    }
    if chain_length != parsed_chain_length {
        return false;
    }

    true
}

/// The views of a directory listing's names.
pub open spec fn spec_name_views(names: Seq<String>) -> Seq<Seq<char>> {
    names.map_values(|s: String| s@)
}

/// The acceptable names of a listing, in order.
pub open spec fn spec_accepted_names(
    names: Seq<Seq<char>>,
    chain_number: u64,
    chain_length: u64,
) -> Seq<Seq<char>>
    decreases names.len(),
{
    if names.len() == 0 {
        Seq::empty()
    } else {
        let rest = spec_accepted_names(names.drop_last(), chain_number, chain_length);
        if spec_is_correct(names.last(), chain_number, chain_length) {
            rest.push(names.last())
        } else {
            rest
        }
    }
}

} // verus!
