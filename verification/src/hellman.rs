//! Hellman's time-memory trade-off attack: chain generation over a reduction
//! prefix, and the online search over memory-resident tables.

pub mod codec;
pub mod table;
pub mod tableio;

use vstd::prelude::*;
use vstd::string::StringExecFns;

use crate::digest::{ripemd160_digest, ripemd160_of};
use crate::messagehash::{spec_message_digest, spec_suffix_index, HashValue, MessageHash,
    HASH_SIZE_IN_BYTES};
use crate::random::random_below;
use crate::{AttackResult, AttackState, CancelFlag};

use table::{bytes_equal, Chain, Table, TableNumber};
use tableio::TableDirectory;

verus! {

/// The trailing `hash_size` bytes of a digest value.
pub open spec fn spec_truncated(hash: Seq<u8>, hash_size: int) -> Seq<u8> {
    hash.skip(spec_suffix_index(hash.len() as int, hash_size))
}

/// Keep only the trailing `hash_size_in_bytes` bytes of a digest.
pub fn truncate_hash(hash_value: &HashValue, hash_size_in_bytes: usize) -> (r: Vec<u8>)
    requires
        hash_value@.len() == HASH_SIZE_IN_BYTES,
        hash_size_in_bytes <= HASH_SIZE_IN_BYTES,
    ensures
        r@ == spec_truncated(hash_value@, hash_size_in_bytes as int),
        r@.len() == hash_size_in_bytes,
{
    let prefix_size = HashValue::len() - hash_size_in_bytes;
    let r = table::slice_range_to_vec(hash_value.hash.as_slice(), prefix_size, hash_value.hash.len());
    proof {
        assert(r@ =~= spec_truncated(hash_value@, hash_size_in_bytes as int));
    }
    r
}

/// A random byte vector of the asked size.
pub fn generate_random_byte_vector(size: usize) -> (r: Vec<u8>)
    ensures
        r@.len() == size,
{
    let mut r: Vec<u8> = Vec::new();
    let mut i: usize = 0;
    while i < size
        invariant
            i <= size,
            r@.len() == i,
        decreases size - i,
    {
        let byte = random_below(256) as u8;
        r.push(byte);
        i += 1;
    }
    r
}

/// The reduction function: the table's prefix, then the point.
pub fn reduction_function(hash: &Vec<u8>, prefix: &Vec<u8>) -> (r: Vec<u8>)
    ensures
        r@ == prefix@ + hash@,
{
    let mut reducted_value: Vec<u8> = Vec::new();
    reducted_value.extend_from_slice(prefix.as_slice());
    reducted_value.extend_from_slice(hash.as_slice());
    proof {
        assert(reducted_value@ =~= prefix@ + hash@);
    }
    reducted_value
}

/// The character for one hexadecimal digit value (unspecified digits render
/// 'f').
pub open spec fn spec_hex_digit_char(d: int) -> char {
    if d == 0 {
        '0'
    } else if d == 1 {
        '1'
    } else if d == 2 {
        '2'
    } else if d == 3 {
        '3'
    } else if d == 4 {
        '4'
    } else if d == 5 {
        '5'
    } else if d == 6 {
        '6'
    } else if d == 7 {
        '7'
    } else if d == 8 {
        '8'
    } else if d == 9 {
        '9'
    } else if d == 10 {
        'a'
    } else if d == 11 {
        'b'
    } else if d == 12 {
        'c'
    } else if d == 13 {
        'd'
    } else if d == 14 {
        'e'
    } else {
        'f'
    }
}

/// The two hexadecimal digits of one byte.
pub open spec fn spec_byte_hex(b: u8) -> Seq<char> {
    seq![spec_hex_digit_char(b as int / 16), spec_hex_digit_char(b as int % 16)]
}

/// The hexadecimal rendering of a byte string, two digits per byte.
pub open spec fn spec_hex_chars(bytes: Seq<u8>) -> Seq<char>
    decreases bytes.len(),
{
    if bytes.len() == 0 {
        Seq::empty()
    } else {
        spec_hex_chars(bytes.drop_last()) + spec_byte_hex(bytes.last())
    }
}

/// A one-character string slice for a hexadecimal digit value.
fn hex_digit_str(d: u8) -> (r: &'static str)
    requires
        d < 16,
    ensures
        r@ == seq![spec_hex_digit_char(d as int)],
{
    let r: &'static str = match d {
        0 => "0",
        1 => "1",
        2 => "2",
        3 => "3",
        4 => "4",
        5 => "5",
        6 => "6",
        7 => "7",
        8 => "8",
        9 => "9",
        10 => "a",
        11 => "b",
        12 => "c",
        13 => "d",
        14 => "e",
        _ => "f",
    };
    proof {
        reveal_strlit("0");
        reveal_strlit("1");
        reveal_strlit("2");
        reveal_strlit("3");
        reveal_strlit("4");
        reveal_strlit("5");
        reveal_strlit("6");
        reveal_strlit("7");
        reveal_strlit("8");
        reveal_strlit("9");
        reveal_strlit("a");
        reveal_strlit("b");
        reveal_strlit("c");
        reveal_strlit("d");
        reveal_strlit("e");
        reveal_strlit("f");
        assert(r@ =~= seq![spec_hex_digit_char(d as int)]);
    }
    r
}

/// Render a byte string in lowercase hexadecimal.
pub fn bytes_to_string(bytes: &Vec<u8>) -> (r: String)
    ensures
        r@ == spec_hex_chars(bytes@),
{
    let mut r = String::new();
    let mut i: usize = 0;
    while i < bytes.len()
        invariant
            i <= bytes@.len(),
            r@ == spec_hex_chars(bytes@.take(i as int)),
        decreases bytes@.len() - i,
    {
        let b = bytes[i];
        let high = hex_digit_str(b / 16);
        let low = hex_digit_str(b % 16);
        r.append(high);
        r.append(low);
        proof {
            assert(bytes@.take(i + 1).drop_last() =~= bytes@.take(i as int));
            assert(bytes@.take(i + 1).last() == bytes@[i as int]);
            assert(r@ =~= spec_hex_chars(bytes@.take(i + 1)));
        }
        i += 1;
    }
    proof {
        assert(bytes@.take(bytes@.len() as int) =~= bytes@);
    }
    r
}

/// One chain step: hash the prefixed point and truncate the digest.
pub open spec fn spec_chain_step(point: Seq<u8>, prefix: Seq<u8>, hash_size: int) -> Seq<u8> {
    spec_truncated(ripemd160_of(prefix + point), hash_size)
}

/// The point reached from `start` after `count` chain steps under `prefix`.
pub open spec fn spec_chain_walk(start: Seq<u8>, prefix: Seq<u8>, hash_size: int, count: nat) -> Seq<
    u8,
>
    decreases count,
{
    if count == 0 {
        start
    } else {
        spec_chain_step(spec_chain_walk(start, prefix, hash_size, (count - 1) as nat), prefix, hash_size)
    }
}

/// Law: chain walking composes — walking `m + n` steps equals walking `m`
/// steps and then `n` more, so any stride tiling of a chain reaches the same
/// end point.
pub proof fn lemma_chain_walk_compose(
    start: Seq<u8>,
    prefix: Seq<u8>,
    hash_size: int,
    m: nat,
    n: nat,
)
    ensures
        spec_chain_walk(start, prefix, hash_size, m + n) == spec_chain_walk(
            spec_chain_walk(start, prefix, hash_size, m),
            prefix,
            hash_size,
            n,
        ),
    decreases n,
{
    if n > 0 {
        lemma_chain_walk_compose(start, prefix, hash_size, m, (n - 1) as nat);
        assert(m + n - 1 == (m + n - 1) as nat);
    }
}

/// The candidate input a chain rewalk reconstructs at online iteration
/// `iteration`: the table's prefix, then the point reached by walking the
/// remaining `chain_length - iteration` steps from the chain's start.
pub open spec fn spec_probe_candidate(
    engine: Hellman,
    table: Table,
    start_point: Seq<u8>,
    iteration: u64,
) -> Seq<u8> {
    table.spec_prefix() + spec_chain_walk(
        start_point,
        table.spec_prefix(),
        engine.spec_hash_size() as int,
        (engine.spec_chain_length() - iteration) as nat,
    )
}

/// Whether that candidate really hashes to the target under the suffix
/// width — the false-alarm test the online attack applies on every hit.
pub open spec fn spec_probe_hits(
    engine: Hellman,
    table: Table,
    start_point: Seq<u8>,
    iteration: u64,
    hash: Seq<u8>,
) -> bool {
    spec_truncated(
        ripemd160_of(spec_probe_candidate(engine, table, start_point, iteration)),
        engine.spec_hash_size() as int,
    ) == hash
}

/// Some chain of the table ends at this point.
pub open spec fn spec_has_end_point(table: Table, p: Seq<u8>) -> bool {
    exists|i: int|
        0 <= i < table.spec_chains().len() && (#[trigger] table.spec_chains()[i]).spec_last() == p
}

/// The current point after `count` online iterations against one table,
/// assuming no iteration succeeded: on an end-point match the point stays
/// (the rewalked candidate was rejected), otherwise it advances one chain
/// step.
pub open spec fn spec_point_trace(engine: Hellman, table: Table, h: Seq<u8>, count: int) -> Seq<u8>
    decreases count,
{
    if count <= 0 {
        h
    } else {
        let p = spec_point_trace(engine, table, h, count - 1);
        if spec_has_end_point(table, p) {
            p
        } else {
            spec_chain_step(p, table.spec_prefix(), engine.spec_hash_size() as int)
        }
    }
}

/// Some chain ending at `p` was rewalked at iteration `j` and its candidate
/// was rejected.
pub open spec fn spec_missed_match(
    engine: Hellman,
    table: Table,
    p: Seq<u8>,
    j: int,
    hash: Seq<u8>,
) -> bool {
    exists|i: int|
        0 <= i < table.spec_chains().len() && (#[trigger] table.spec_chains()[i]).spec_last() == p
            && !spec_probe_hits(engine, table, table.spec_chains()[i].spec_first(), j as u64, hash)
}

/// Through the first `upto` online iterations, every end-point match was a
/// rejected false alarm.
pub open spec fn spec_no_hit_through(
    engine: Hellman,
    table: Table,
    h: Seq<u8>,
    hash: Seq<u8>,
    upto: int,
) -> bool {
    forall|j0: int|
        0 <= j0 < upto && spec_has_end_point(
            table,
            #[trigger] spec_point_trace(engine, table, h, j0),
        ) ==> spec_missed_match(engine, table, spec_point_trace(engine, table, h, j0), j0 + 1, hash)
}

/// A reported preimage's pedigree: some stored chain, rewalked at some
/// online iteration, reconstructed the candidate whose digest the pair
/// carries, and that digest matches the target under the suffix width.
pub open spec fn spec_found_preimage(
    engine: Hellman,
    tables: Seq<Table>,
    hash: Seq<u8>,
    mh: MessageHash,
) -> bool {
    exists|k: int, i: int, j: u64|
        #![auto]
        {
            &&& 0 <= k < tables.len()
            &&& 0 <= i < tables[k].spec_chains().len()
            &&& 1 <= j <= engine.spec_chain_length()
            &&& spec_probe_hits(
                engine,
                tables[k],
                tables[k].spec_chains()[i].spec_first(),
                j,
                hash,
            )
            &&& mh.spec_hash() == ripemd160_of(
                spec_probe_candidate(
                    engine,
                    tables[k],
                    tables[k].spec_chains()[i].spec_first(),
                    j,
                ),
            )
            &&& mh.spec_message() == spec_hex_chars(
                spec_probe_candidate(
                    engine,
                    tables[k],
                    tables[k].spec_chains()[i].spec_first(),
                    j,
                ),
            )
        }
}

/// What an exhausted online pass certifies of one table (for sorted tables,
/// where the search outcome is pinned): the point evolved exactly along the
/// trace, and every match along it was a rejected false alarm.
pub open spec fn spec_table_state(
    engine: Hellman,
    table: Table,
    h: Seq<u8>,
    hash: Seq<u8>,
    point: Seq<u8>,
    upto: int,
) -> bool {
    table::spec_sorted_by_last(table.spec_chains()) ==> {
        &&& point == spec_point_trace(engine, table, h, upto)
        &&& spec_no_hit_through(engine, table, h, hash, upto)
    }
}

/// The Hellman engine: generates precomputed chain tables and runs the
/// online attack over tables held in memory.
pub struct Hellman {
    state: AttackState,
    hash_size_in_bytes: usize,
    reduction_prefix_size_in_bytes: usize,
    tables_number: TableNumber,
    chain_number: u64,
    chain_length: u64,
    table_directory: TableDirectory,
    table_file_format: String,
}

impl Hellman {
    pub closed spec fn spec_state(self) -> AttackState {
        self.state
    }

    pub closed spec fn spec_hash_size(self) -> usize {
        self.hash_size_in_bytes
    }

    pub closed spec fn spec_prefix_size(self) -> usize {
        self.reduction_prefix_size_in_bytes
    }

    pub closed spec fn spec_tables_number(self) -> TableNumber {
        self.tables_number
    }

    pub closed spec fn spec_chain_number(self) -> u64 {
        self.chain_number
    }

    pub closed spec fn spec_chain_length(self) -> u64 {
        self.chain_length
    }

    pub closed spec fn spec_table_directory(self) -> TableDirectory {
        self.table_directory
    }

    pub closed spec fn spec_table_file_format(self) -> Seq<char> {
        self.table_file_format@
    }

    /// Configuration the constructor establishes.
    pub open spec fn wf(self) -> bool {
        &&& self.spec_hash_size() <= HASH_SIZE_IN_BYTES
        &&& self.spec_prefix_size() >= 1
        &&& self.spec_tables_number().spec_on_disk() >= 1
        &&& self.spec_chain_length() < u64::MAX
    }

    /// Build an engine; rejects an oversized suffix width, a reduction
    /// output no wider than the suffix, zero tables, and an unknown format.
    pub fn build(
        initial_state: AttackState,
        hash_size_in_bytes: usize,
        reduction_output_size_in_bytes: usize,
        tables_number: TableNumber,
        chain_number: u64,
        chain_length: u64,
        table_directory_path: &str,
        table_file_format: &str,
    ) -> (r: Result<Self, &'static str>)
        requires
            chain_length < u64::MAX,
        ensures
            match r {
                Ok(engine) => {
                    &&& hash_size_in_bytes <= HASH_SIZE_IN_BYTES
                    &&& reduction_output_size_in_bytes > hash_size_in_bytes
                    &&& tables_number.spec_on_disk() >= 1
                    &&& (table_file_format@ == "json"@ || table_file_format@ == "bin"@)
                    &&& engine.wf()
                    &&& engine.spec_state() == initial_state
                    &&& engine.spec_hash_size() == hash_size_in_bytes
                    &&& engine.spec_prefix_size() == reduction_output_size_in_bytes
                        - hash_size_in_bytes
                    &&& engine.spec_tables_number() == tables_number
                    &&& engine.spec_chain_number() == chain_number
                    &&& engine.spec_chain_length() == chain_length
                    &&& engine.spec_table_file_format() == table_file_format@
                    &&& engine.spec_table_directory().root_directory_path@
                        == table_directory_path@
                    &&& engine.spec_table_directory().hash_size_in_bytes == hash_size_in_bytes
                    &&& engine.spec_table_directory().reduction_prefix_size_in_bytes
                        == reduction_output_size_in_bytes - hash_size_in_bytes
                    &&& engine.spec_table_directory().table_file_format@ == table_file_format@
                },
                Err(m) => {
                    ||| (hash_size_in_bytes > HASH_SIZE_IN_BYTES && m@
                        == "Provided hash size is too large"@)
                    ||| (reduction_output_size_in_bytes <= hash_size_in_bytes && m@
                        == "Reduction function output can not be smaller than hash value"@)
                    ||| (tables_number.spec_on_disk() == 0 && m@
                        == "Number of tables on disk can not be zero"@)
                    ||| (table_file_format@ != "json"@ && table_file_format@ != "bin"@ && m@
                        == "Invalid table file format"@)
                },
            },
    {
        if hash_size_in_bytes > HashValue::len() {
            return Err("Provided hash size is too large");
        }
        if reduction_output_size_in_bytes <= hash_size_in_bytes {
            return Err("Reduction function output can not be smaller than hash value");
        }
        if tables_number.on_disk() == 0 {
            return Err("Number of tables on disk can not be zero");
        }
        if !crate::strutil::str_eq(table_file_format, "json") && !crate::strutil::str_eq(table_file_format, "bin") {
            return Err("Invalid table file format");
        }

        let reduction_prefix_size_in_bytes = reduction_output_size_in_bytes - hash_size_in_bytes;
        let table_directory = TableDirectory::new(
            table_directory_path,
            hash_size_in_bytes,
            reduction_prefix_size_in_bytes,
            table_file_format,
        );
        let table_file_format = table_file_format.to_owned();

        Ok(
            Hellman {
                state: initial_state,
                hash_size_in_bytes,
                reduction_prefix_size_in_bytes,
                tables_number,
                chain_number,
                chain_length,
                table_directory,
                table_file_format,
            },
        )
    }

    pub fn initial_state(&self) -> (r: &AttackState)
        ensures
            *r == self.spec_state(),
    {
        &self.state
    }

    pub fn hash_size_in_bytes(&self) -> (r: usize)
        ensures
            r == self.spec_hash_size(),
    {
        self.hash_size_in_bytes
    }

    pub fn reduction_prefix_size_in_bytes(&self) -> (r: usize)
        ensures
            r == self.spec_prefix_size(),
    {
        self.reduction_prefix_size_in_bytes
    }

    pub fn tables_number(&self) -> (r: &TableNumber)
        ensures
            *r == self.spec_tables_number(),
    {
        &self.tables_number
    }

    pub fn chain_number(&self) -> (r: u64)
        ensures
            r == self.spec_chain_number(),
    {
        self.chain_number
    }

    pub fn chain_length(&self) -> (r: u64)
        ensures
            r == self.spec_chain_length(),
    {
        self.chain_length
    }

    pub fn table_directory(&self) -> (r: &TableDirectory)
        ensures
            *r == self.spec_table_directory(),
    {
        &self.table_directory
    }

    pub fn table_file_format(&self) -> (r: &String)
        ensures
            r@ == self.spec_table_file_format(),
    {
        &self.table_file_format
    }

    /// Replace the stored message (the driver restores the base message with
    /// this between runs).
    pub fn set_message(&mut self, message: &str)
        ensures
            final(self).spec_state().spec_message() == message@,
            final(self).spec_state().spec_transform() == old(self).spec_state().spec_transform(),
            unchanged_hellman_config(*old(self), *final(self)),
    {
        self.state.set_message(message);
    }

    /// Step the transform on `message` (the driver derives a fresh base
    /// message with this between runs).
    pub fn transform_message(&mut self, message: &str) -> (r: String)
        requires
            crate::messagetransform::spec_can_step(old(self).spec_state().spec_transform()),
        ensures
            final(self).spec_state().spec_message() == old(self).spec_state().spec_message(),
            unchanged_hellman_config(*old(self), *final(self)),
    {
        self.state.transform_message(message)
    }

    /// The file path of the table with this engine's parameters and the
    /// given index.
    pub fn table_filepath(&self, table_index: usize) -> (r: String)
        ensures
            r@ == self.spec_table_directory().spec_table_filepath(
                self.spec_chain_number(),
                self.spec_chain_length(),
                table_index as int,
            ),
    {
        self.table_directory.table_filepath(self.chain_number, self.chain_length, table_index)
    }

    /// The first free table index at or above `start_index`, judged against
    /// a directory listing.
    pub fn get_free_index(
        &self,
        start_index: usize,
        existing_filenames: &Vec<String>,
    ) -> (r: usize)
        requires
            start_index + existing_filenames@.len() + 1 <= usize::MAX,
        ensures
            start_index <= r <= start_index + existing_filenames@.len(),
            forall|j: int|
                0 <= j < existing_filenames@.len() ==> (#[trigger] existing_filenames@[j])@
                    != tableio::spec_table_filename(
                    self.spec_chain_number(),
                    self.spec_chain_length(),
                    r as int,
                ),
    {
        self.table_directory.get_free_index(
            self.chain_number,
            self.chain_length,
            start_index,
            existing_filenames,
        )
    }

    /// The full paths of up to the configured number of listing entries that
    /// can serve this engine's parameters.
    pub fn read_table_filepaths(&self, filenames: &Vec<String>) -> (r: Vec<String>)
        ensures
            ({
                let accepted = tableio::spec_accepted_names(
                    tableio::spec_name_views(filenames@),
                    self.spec_chain_number(),
                    self.spec_chain_length(),
                );
                let tables_number = self.spec_tables_number().spec_on_disk();
                &&& r@.len() <= tables_number
                &&& r@.len() == (if accepted.len() <= tables_number {
                    accepted.len() as int
                } else {
                    tables_number as int
                })
                &&& forall|k: int|
                    0 <= k < r@.len() ==> (#[trigger] r@[k])@
                        == self.spec_table_directory().spec_path() + tableio::spec_path_sep()
                        + accepted[k]
            }),
    {
        self.table_directory.read_table_filepaths(
            filenames,
            self.chain_number,
            self.chain_length,
            self.tables_number.on_disk(),
        )
    }

    /// Walk a chain `chain_length` steps from `start_point` under `prefix`.
    pub fn calculate_end_point(
        &self,
        chain_length: u64,
        start_point: &Vec<u8>,
        prefix: &Vec<u8>,
    ) -> (r: Vec<u8>)
        requires
            self.spec_hash_size() <= HASH_SIZE_IN_BYTES,
            chain_length < u64::MAX,
        ensures
            r@ == spec_chain_walk(
                start_point@,
                prefix@,
                self.spec_hash_size() as int,
                chain_length as nat,
            ),
            r@.len() == (if chain_length == 0 {
                start_point@.len() as int
            } else {
                self.spec_hash_size() as int
            }),
    {
        let mut end_point = start_point.clone();
        proof {
            assert(end_point@ =~= start_point@);
        }

        let mut i: u64 = 0;
        while i < chain_length
            invariant
                i <= chain_length,
                self.spec_hash_size() <= HASH_SIZE_IN_BYTES,
                end_point@ == spec_chain_walk(
                    start_point@,
                    prefix@,
                    self.spec_hash_size() as int,
                    i as nat,
                ),
                end_point@.len() == (if i == 0 {
                    start_point@.len() as int
                } else {
                    self.spec_hash_size() as int
                }),
            decreases chain_length - i,
        {
            let reducted_value = reduction_function(&end_point, prefix);
            let hash = self.state.hash_message(reducted_value.as_slice());

            end_point = truncate_hash(&hash, self.hash_size_in_bytes);
            i += 1;
        }

        end_point
    }

    /// Generate one table: a random reduction prefix, then up to
    /// `chain_number` chains from random start points, each walked the full
    /// chain length (fewer when cancelled early).
    pub fn create_preprocessing_table(&self, running: &CancelFlag) -> (r: Table)
        requires
            self.wf(),
        ensures
            r.spec_prefix().len() == self.spec_prefix_size(),
            r.spec_chains().len() <= self.spec_chain_number(),
            spec_table_chains_generated(*self, r),
            r.spec_uniform(self.spec_hash_size() as int),
    {
        let prefix = generate_random_byte_vector(self.reduction_prefix_size_in_bytes);
        let mut table = Table::new(Vec::new(), prefix);

        let mut i: u64 = 0;
        while i < self.chain_number
            invariant
                i <= self.spec_chain_number(),
                self.wf(),
                table.spec_prefix().len() == self.spec_prefix_size(),
                table.spec_chains().len() <= i,
                spec_table_chains_generated(*self, table),
            decreases self.spec_chain_number() - i,
        {
            if !running.is_running() {
                break ;
            }

            let start_point = generate_random_byte_vector(self.hash_size_in_bytes);
            let end_point = self.calculate_end_point(self.chain_length, &start_point, table.prefix());

            let chain = Chain::new(start_point, end_point);

            table.push(chain);
            i += 1;
        }

        table
    }

    /// Current points for the online attack: the target's truncated digest,
    /// once per table on disk.
    pub fn init_current_points(&self) -> (r: Vec<Vec<u8>>)
        requires
            self.wf(),
        ensures
            r@.len() == self.spec_tables_number().spec_on_disk(),
            forall|i: int|
                0 <= i < r@.len() ==> (#[trigger] r@[i])@ == spec_truncated(
                    spec_message_digest(self.spec_state().spec_message()),
                    self.spec_hash_size() as int,
                ),
    {
        let messagehash = self.state.messagehash();
        let hash = truncate_hash(messagehash.hash_value(), self.hash_size_in_bytes);

        let count = self.tables_number.on_disk();
        let mut points: Vec<Vec<u8>> = Vec::new();
        let mut i: usize = 0;
        while i < count
            invariant
                i <= count,
                points@.len() == i,
                hash@ == spec_truncated(
                    spec_message_digest(self.spec_state().spec_message()),
                    self.spec_hash_size() as int,
                ),
                forall|k: int| 0 <= k < i ==> (#[trigger] points@[k])@ == hash@,
            decreases count - i,
        {
            let point = hash.clone();
            proof {
                assert(point@ =~= hash@);
            }
            points.push(point);
            i += 1;
        }
        points
    }

    /// Rewalk a found chain from its start point and test the candidate: a
    /// pair is returned exactly when the candidate hashes to the target
    /// under the suffix width; its message is the candidate's bytes in
    /// hexadecimal.
    pub fn try_find_preimage(
        &self,
        hash: &Vec<u8>,
        table: &Table,
        start_point: &Vec<u8>,
        iteration: u64,
    ) -> (r: Option<MessageHash>)
        requires
            self.wf(),
            iteration <= self.spec_chain_length(),
        ensures
            match r {
                Some(mh) => {
                    let candidate = spec_probe_candidate(*self, *table, start_point@, iteration);
                    &&& spec_probe_hits(*self, *table, start_point@, iteration, hash@)
                    &&& mh.spec_hash() == ripemd160_of(candidate)
                    &&& spec_truncated(mh.spec_hash(), self.spec_hash_size() as int) == hash@
                    &&& mh.spec_message() == spec_hex_chars(candidate)
                },
                None => !spec_probe_hits(*self, *table, start_point@, iteration, hash@),
            },
    {
        let prefixless = self.calculate_end_point(
            self.chain_length - iteration,
            start_point,
            table.prefix(),
        );

        let preimage_bytes = reduction_function(&prefixless, table.prefix());

        let preimage_hash = self.state.hash_message(preimage_bytes.as_slice());

        let truncated = truncate_hash(&preimage_hash, self.hash_size_in_bytes);
        if !bytes_equal(hash, &truncated) {
            return None;
        }

        let preimage = bytes_to_string(&preimage_bytes);
        let messagehash = MessageHash::new(preimage.as_str(), preimage_hash);

        Some(messagehash)
    }

    /// One online step against one table: if the current point is some
    /// chain's end point, rewalk that chain and test the candidate (the
    /// point stays put either way); otherwise — provably so on a sorted
    /// table — advance the current point exactly one chain step.
    pub fn try_find_point(
        &self,
        hash: &Vec<u8>,
        table: &Table,
        point: &mut Vec<u8>,
        iteration: u64,
    ) -> (r: Option<MessageHash>)
        requires
            self.wf(),
            iteration <= self.spec_chain_length(),
        ensures
            match r {
                Some(mh) => {
                    &&& final(point)@ == old(point)@
                    &&& spec_truncated(mh.spec_hash(), self.spec_hash_size() as int) == hash@
                    &&& exists|i: int|
                        0 <= i < table.spec_chains().len() && (
                        #[trigger] table.spec_chains()[i]).spec_last() == old(point)@
                            && spec_probe_hits(
                            *self,
                            *table,
                            table.spec_chains()[i].spec_first(),
                            iteration,
                            hash@,
                        ) && mh.spec_hash() == ripemd160_of(
                            spec_probe_candidate(
                                *self,
                                *table,
                                table.spec_chains()[i].spec_first(),
                                iteration,
                            ),
                        ) && mh.spec_message() == spec_hex_chars(
                            spec_probe_candidate(
                                *self,
                                *table,
                                table.spec_chains()[i].spec_first(),
                                iteration,
                            ),
                        )
                },
                None => {
                    ||| (final(point)@ == old(point)@ && exists|i: int|
                        0 <= i < table.spec_chains().len() && (
                        #[trigger] table.spec_chains()[i]).spec_last() == old(point)@
                            && !spec_probe_hits(
                            *self,
                            *table,
                            table.spec_chains()[i].spec_first(),
                            iteration,
                            hash@,
                        ))
                    ||| (final(point)@ == spec_chain_step(
                        old(point)@,
                        table.spec_prefix(),
                        self.spec_hash_size() as int,
                    ) && (table::spec_sorted_by_last(table.spec_chains()) ==> forall|i: int|
                        0 <= i < table.spec_chains().len() ==> (
                        #[trigger] table.spec_chains()[i]).spec_last() != old(point)@))
                },
            },
    {
        if let Some(chain) = table.search_by_last_point(point) {
            let ghost chain_index = choose|i: int|
                0 <= i < table.spec_chains().len() && table.spec_chains()[i] == *chain;
            let start_point = chain.0.clone();
            proof {
                assert(start_point@ =~= table.spec_chains()[chain_index].spec_first());
            }
            let result = self.try_find_preimage(hash, table, &start_point, iteration);

            result
        } else {
            let current = point.clone();
            let next = self.calculate_end_point(1, &current, table.prefix());
            proof {
                assert(current@ =~= old(point)@);
                let p = table.spec_prefix();
                let s = self.spec_hash_size() as int;
                assert(spec_chain_walk(current@, p, s, 0) == current@);
                assert(spec_chain_walk(current@, p, s, 1) == spec_chain_step(
                    spec_chain_walk(current@, p, s, 0),
                    p,
                    s,
                ));
                assert(next@ == spec_chain_step(old(point)@, p, s));
            }
            *point = next;
            None
        }
    }

    /// Run up to `chain_length` online iterations over one batch of tables.
    /// A success really is a preimage of the target under the suffix width,
    /// reconstructed from a stored chain; an exhaustion failure certifies
    /// that over each sorted table the current point walked the full trace
    /// and every end-point match along it was a rejected false alarm.
    pub fn process_tables(
        &self,
        hash: &Vec<u8>,
        points: &mut Vec<Vec<u8>>,
        tables: &Vec<Table>,
        running: &CancelFlag,
    ) -> (r: (AttackResult, u64))
        requires
            self.wf(),
            (self.spec_chain_length() + 1) * (tables@.len() + 1) < u64::MAX,
        ensures
            final(points)@.len() == old(points)@.len(),
            old(points)@.len() != tables@.len() ==> (r.0 matches AttackResult::GeneralFailure(m)
                && m@ == "Invalid container sizes"@ && final(points)@ == old(points)@ && r.1 == 1),
            old(points)@.len() == tables@.len() ==> match r.0 {
                AttackResult::PreimageSuccess(mh) => spec_truncated(
                    mh.spec_hash(),
                    self.spec_hash_size() as int,
                ) == hash@ && spec_found_preimage(*self, tables@, hash@, mh),
                AttackResult::GeneralFailure(m) => {
                    ||| m@ == "Attack terminated"@
                    ||| (m@ == "Failed to find preimage"@ && forall|k: int|
                        0 <= k < tables@.len() ==> #[trigger] spec_table_state(
                            *self,
                            tables@[k],
                            old(points)@[k]@,
                            hash@,
                            final(points)@[k]@,
                            self.spec_chain_length() as int,
                        ))
                },
                _ => false,
            },
    {
        let mut iteration: u64 = 1;

        if points.len() != tables.len() {
            return (AttackResult::GeneralFailure("Invalid container sizes"), iteration);
        }

        proof {
            assert forall|k: int| 0 <= k < tables@.len() implies #[trigger] spec_table_state(
                *self,
                tables@[k],
                old(points)@[k]@,
                hash@,
                points@[k]@,
                0,
            ) by {
                assert(spec_point_trace(*self, tables@[k], old(points)@[k]@, 0)
                    == old(points)@[k]@);
            }
        }

        while iteration <= self.chain_length
            invariant
                1 <= iteration <= self.spec_chain_length() + 1,
                self.wf(),
                old(points)@.len() == tables@.len(),
                points@.len() == tables@.len(),
                (self.spec_chain_length() + 1) * (tables@.len() + 1) < u64::MAX,
                forall|k: int|
                    0 <= k < tables@.len() ==> #[trigger] spec_table_state(
                        *self,
                        tables@[k],
                        old(points)@[k]@,
                        hash@,
                        points@[k]@,
                        iteration - 1,
                    ),
            decreases self.spec_chain_length() - iteration + 1,
        {
            if !running.is_running() {
                let result = AttackResult::GeneralFailure("Attack terminated");

                return (result, iteration);
            }

            let mut j: usize = 0;
            while j < tables.len()
                invariant
                    j <= tables@.len(),
                    1 <= iteration <= self.spec_chain_length(),
                    self.wf(),
                    old(points)@.len() == tables@.len(),
                    points@.len() == tables@.len(),
                    (self.spec_chain_length() + 1) * (tables@.len() + 1) < u64::MAX,
                    forall|k: int|
                        0 <= k < j ==> #[trigger] spec_table_state(
                            *self,
                            tables@[k],
                            old(points)@[k]@,
                            hash@,
                            points@[k]@,
                            iteration as int,
                        ),
                    forall|k: int|
                        j <= k < tables@.len() ==> #[trigger] spec_table_state(
                            *self,
                            tables@[k],
                            old(points)@[k]@,
                            hash@,
                            points@[k]@,
                            iteration - 1,
                        ),
                decreases tables@.len() - j,
            {
                let table = &tables[j];
                let ghost pre_points = points@;
                let mut point = points[j].clone();
                proof {
                    assert(point@ =~= points@[j as int]@);
                    assert(spec_table_state(
                        *self,
                        tables@[j as int],
                        old(points)@[j as int]@,
                        hash@,
                        pre_points[j as int]@,
                        iteration - 1,
                    ));
                }
                let ghost point_before = point@;
                let found = self.try_find_point(hash, table, &mut point, iteration);
                points.set(j, point);

                if let Some(preimage) = found {
                    proof {
                        let tbl = tables@[j as int];
                        let witness_i = choose|i: int|
                            0 <= i < tbl.spec_chains().len() && (
                            #[trigger] tbl.spec_chains()[i]).spec_last() == point_before
                                && spec_probe_hits(
                                *self,
                                tbl,
                                tbl.spec_chains()[i].spec_first(),
                                iteration,
                                hash@,
                            ) && preimage.spec_hash() == ripemd160_of(
                                spec_probe_candidate(
                                    *self,
                                    tbl,
                                    tbl.spec_chains()[i].spec_first(),
                                    iteration,
                                ),
                            ) && preimage.spec_message() == spec_hex_chars(
                                spec_probe_candidate(
                                    *self,
                                    tbl,
                                    tbl.spec_chains()[i].spec_first(),
                                    iteration,
                                ),
                            );
                        assert(spec_found_preimage(*self, tables@, hash@, preimage));
                    }
                    let result = AttackResult::PreimageSuccess(preimage);

                    proof {
                        assert((iteration as int) * (tables@.len() as int) + j < u64::MAX)
                            by (nonlinear_arith)
                            requires
                                1 <= iteration <= self.spec_chain_length(),
                                0 <= j < tables@.len(),
                                (self.spec_chain_length() + 1) * (tables@.len() + 1) < u64::MAX,
                        ;
                    }
                    let found_iteration = iteration * (tables.len() as u64) + (j as u64);

                    return (result, found_iteration);
                }

                proof {
                    let tbl = tables@[j as int];
                    let h0 = old(points)@[j as int]@;
                    if table::spec_sorted_by_last(tbl.spec_chains()) {
                        let upto = iteration as int;
                        let p = spec_point_trace(*self, tbl, h0, upto - 1);
                        assert(point_before == p);
                        if spec_has_end_point(tbl, p) {
                            // a match exists, so the stepped disjunct is ruled
                            // out and the probe was a rejected false alarm
                            assert(point@ == point_before);
                            assert(spec_missed_match(*self, tbl, p, upto, hash@));
                            assert(spec_point_trace(*self, tbl, h0, upto) == p);
                        } else {
                            assert(point@ == spec_chain_step(
                                p,
                                tbl.spec_prefix(),
                                self.spec_hash_size() as int,
                            ));
                            assert(spec_point_trace(*self, tbl, h0, upto) == point@);
                        }
                        assert forall|j0: int|
                            0 <= j0 < upto && spec_has_end_point(
                                tbl,
                                #[trigger] spec_point_trace(*self, tbl, h0, j0),
                            ) implies spec_missed_match(
                            *self,
                            tbl,
                            spec_point_trace(*self, tbl, h0, j0),
                            j0 + 1,
                            hash@,
                        ) by {
                            if j0 < upto - 1 {
                                assert(spec_no_hit_through(*self, tbl, h0, hash@, upto - 1));
                            }
                        }
                        assert(spec_no_hit_through(*self, tbl, h0, hash@, upto));
                    }
                    assert(spec_table_state(
                        *self,
                        tbl,
                        h0,
                        hash@,
                        points@[j as int]@,
                        iteration as int,
                    ));
                }
                j += 1;
            }

            iteration += 1;
        }

        proof {
            assert forall|k: int| 0 <= k < tables@.len() implies #[trigger] spec_table_state(
                *self,
                tables@[k],
                old(points)@[k]@,
                hash@,
                points@[k]@,
                self.spec_chain_length() as int,
            ) by {
                assert(spec_table_state(
                    *self,
                    tables@[k],
                    old(points)@[k]@,
                    hash@,
                    points@[k]@,
                    iteration - 1,
                ));
            }
        }
        let result = AttackResult::GeneralFailure("Failed to find preimage");

        (result, iteration)
    }

    /// Run the online attack against one batch of tables already in memory:
    /// start every current point at the target's truncated digest and step
    /// all tables together.  A success really is a preimage of the stored
    /// message's digest under the suffix width.
    pub fn attack_in_memory(&self, tables: &Vec<Table>, running: &CancelFlag) -> (r: (
        AttackResult,
        u64,
    ))
        requires
            self.wf(),
            (self.spec_chain_length() + 1) * (tables@.len() + 1) < u64::MAX,
            tables@.len() == self.spec_tables_number().spec_on_disk(),
        ensures
            ({
                let target = spec_truncated(
                    spec_message_digest(self.spec_state().spec_message()),
                    self.spec_hash_size() as int,
                );
                match r.0 {
                    AttackResult::PreimageSuccess(mh) => spec_truncated(
                        mh.spec_hash(),
                        self.spec_hash_size() as int,
                    ) == target && spec_found_preimage(*self, tables@, target, mh),
                    AttackResult::GeneralFailure(m) => {
                        ||| m@ == "Attack terminated"@
                        ||| (m@ == "Failed to find preimage"@ && forall|k: int|
                            0 <= k < tables@.len() ==> (table::spec_sorted_by_last(
                                (#[trigger] tables@[k]).spec_chains(),
                            ) ==> spec_no_hit_through(
                                *self,
                                tables@[k],
                                target,
                                target,
                                self.spec_chain_length() as int,
                            )))
                    },
                    _ => false,
                }
            }),
    {
        let mut points = self.init_current_points();
        let messagehash = self.state.messagehash();
        let hash = truncate_hash(messagehash.hash_value(), self.hash_size_in_bytes);
        let ghost start_points = points@;

        let r = self.process_tables(&hash, &mut points, tables, running);
        proof {
            let target = spec_truncated(
                spec_message_digest(self.spec_state().spec_message()),
                self.spec_hash_size() as int,
            );
            if let AttackResult::GeneralFailure(m) = r.0 {
                if m@ != "Attack terminated"@ {
                    assert forall|k: int| 0 <= k < tables@.len() implies (table::spec_sorted_by_last(
                        (#[trigger] tables@[k]).spec_chains(),
                    ) ==> spec_no_hit_through(
                        *self,
                        tables@[k],
                        target,
                        target,
                        self.spec_chain_length() as int,
                    )) by {
                        assert(start_points[k]@ == target);
                        assert(spec_table_state(
                            *self,
                            tables@[k],
                            start_points[k]@,
                            hash@,
                            points@[k]@,
                            self.spec_chain_length() as int,
                        ));
                        assert(spec_table_state(
                            *self,
                            tables@[k],
                            target,
                            target,
                            points@[k]@,
                            self.spec_chain_length() as int,
                        ));
                    }
                }
            }
        }
        r
    }
}

/// The engine's configuration (everything but the attack state) is
/// untouched.
pub open spec fn unchanged_hellman_config(pre: Hellman, post: Hellman) -> bool {
    &&& post.spec_hash_size() == pre.spec_hash_size()
    &&& post.spec_prefix_size() == pre.spec_prefix_size()
    &&& post.spec_tables_number() == pre.spec_tables_number()
    &&& post.spec_chain_number() == pre.spec_chain_number()
    &&& post.spec_chain_length() == pre.spec_chain_length()
    &&& post.spec_table_directory() == pre.spec_table_directory()
    &&& post.spec_table_file_format() == pre.spec_table_file_format()
}

/// Every chain of the table was generated honestly: its start point has the
/// suffix width and its end point is the full-length walk from the start
/// under the table's prefix.
pub open spec fn spec_table_chains_generated(engine: Hellman, table: Table) -> bool {
    forall|i: int|
        0 <= i < table.spec_chains().len() ==> {
            let chain = #[trigger] table.spec_chains()[i];
            &&& chain.spec_first().len() == engine.spec_hash_size()
            &&& chain.spec_last().len() == engine.spec_hash_size()
            &&& chain.spec_last() == spec_chain_walk(
                chain.spec_first(),
                table.spec_prefix(),
                engine.spec_hash_size() as int,
                engine.spec_chain_length() as nat,
            )
        }
}

} // verus!

