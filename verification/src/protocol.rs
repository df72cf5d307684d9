//! Which graphics protocol the hosting terminal takes, and how its bytes are
//! handed to the terminal.

use vstd::prelude::*;

verus! {

/// Width in pixels of the virtual cell of a SIXEL host.
pub const SIXEL_CELL_WIDTH_PX: u32 = 10;

/// Height in pixels of the virtual cell of a SIXEL host.
pub const SIXEL_CELL_HEIGHT_PX: u32 = 20;

/// Upper bound for one host write.
///
/// ConPTY delays the whole write while it drains a large SIXEL payload, which
/// stalls scrolling in panes that show several images.
pub const SIXEL_WRITE_CHUNK_BYTES: usize = 16 * 1024;

/// Pixel size of one terminal cell.
#[derive(Debug, Clone, Copy, PartialEq, Eq, Hash, Structural)]
pub struct HostCellSize {
    pub width_px: u32,
    pub height_px: u32,
}

/// The virtual cell as a specification value.
pub open spec fn virtual_cell() -> HostCellSize {
    HostCellSize { width_px: SIXEL_CELL_WIDTH_PX, height_px: SIXEL_CELL_HEIGHT_PX }
}

/// Virtual cell Windows Terminal uses when scaling SIXEL rasters onto its grid.
pub fn sixel_cell_size() -> (size: HostCellSize)
    ensures
        size == virtual_cell(),
        size.width_px == 10,
        size.height_px == 20,
{
    HostCellSize { width_px: SIXEL_CELL_WIDTH_PX, height_px: SIXEL_CELL_HEIGHT_PX }
}

/// Graphics protocol the hosting terminal accepts.
#[derive(Debug, Clone, Copy, PartialEq, Eq, Hash, Structural)]
pub enum HostGraphicsProtocol {
    /// Do not emit terminal graphics payloads.
    Disabled,
    /// Emit Kitty graphics protocol payloads.
    Kitty,
    /// Emit SIXEL payloads.
    Sixel,
}

impl Default for HostGraphicsProtocol {
    fn default() -> (protocol: Self)
        ensures
            protocol == HostGraphicsProtocol::Disabled,
    {
        HostGraphicsProtocol::Disabled
    }
}

impl HostGraphicsProtocol {
    /// Whether SIXEL payloads are emitted.
    pub fn is_sixel(self) -> (sixel: bool)
        ensures
            sixel == (self == HostGraphicsProtocol::Sixel),
    {
        self == HostGraphicsProtocol::Sixel
    }

    /// Cell geometry to request from the endpoint for this protocol.
    ///
    /// SIXEL hosts are steered onto the fixed virtual grid because they cannot
    /// report real geometry.
    pub fn cell_size(self, reported: HostCellSize) -> (size: HostCellSize)
        ensures
            size == (if self == HostGraphicsProtocol::Sixel {
                virtual_cell()
            } else {
                reported
            }),
    {
        if self.is_sixel() {
            sixel_cell_size()
        } else {
            reported
        }
    }
}

/// What the environment variables say about the hosting terminal.
#[derive(Debug)]
pub struct HostEnvironment {
    /// Value of `TERM_PROGRAM`, where it is set and valid Unicode.
    pub term_program: Option<String>,
    /// Whether `KITTY_WINDOW_ID` is set.
    pub kitty_window_id: bool,
    /// Whether `GHOSTTY_RESOURCES_DIR` is set.
    pub ghostty_resources_dir: bool,
    /// Whether `WEZTERM_PANE` is set.
    pub wezterm_pane: bool,
    /// Whether `WT_SESSION` is set.
    pub wt_session: bool,
}

/// `code` with the ASCII capital letters mapped to the small ones.
pub open spec fn ascii_lowercase(code: u32) -> u32 {
    if 65 <= code <= 90 {
        (code + 32) as u32
    } else {
        code
    }
}

/// Whether `text`, with its ASCII capitals made small, reads `lower`.
pub open spec fn reads_in_lowercase(text: Seq<char>, lower: Seq<char>) -> bool {
    &&& text.len() == lower.len()
    &&& forall|i: int|
        0 <= i < text.len() ==> ascii_lowercase(#[trigger] text[i] as u32) == lower[i] as u32
}

/// Whether `TERM_PROGRAM` names a terminal known to speak the Kitty protocol.
pub open spec fn names_kitty_host(term_program: Seq<char>) -> bool {
    ||| reads_in_lowercase(term_program, "kitty"@)
    ||| reads_in_lowercase(term_program, "ghostty"@)
    ||| reads_in_lowercase(term_program, "wezterm"@)
}

impl HostEnvironment {
    /// Whether anything marks the terminal as one that speaks the Kitty protocol.
    pub open spec fn known_kitty_host(self) -> bool {
        ||| self.kitty_window_id
        ||| self.ghostty_resources_dir
        ||| self.wezterm_pane
        ||| self.term_program matches Some(name) && names_kitty_host(name@)
    }
}

impl HostEnvironment {
    /// Whether the terminal is known to speak the Kitty protocol.
    pub fn is_known_kitty_host(&self) -> (known: bool)
        ensures
            known == self.known_kitty_host(),
    {
        let named_kitty_host: bool = match &self.term_program {
            Some(name) => {
                text_reads_in_lowercase(name.as_str(), "kitty") || text_reads_in_lowercase(
                    name.as_str(),
                    "ghostty",
                ) || text_reads_in_lowercase(name.as_str(), "wezterm")
            },
            None => false,
        };
        self.kitty_window_id || self.ghostty_resources_dir || self.wezterm_pane || named_kitty_host
    }
}

fn text_reads_in_lowercase(text: &str, lower: &str) -> (reads: bool)
    ensures
        reads == reads_in_lowercase(text@, lower@),
{
    let len: usize = text.unicode_len();
    if len != lower.unicode_len() {
        return false;
    }
    let mut i: usize = 0;
    while i < len
        invariant
            i <= len,
            len == text@.len(),
            len == lower@.len(),
            forall|j: int|
                0 <= j < i ==> ascii_lowercase(#[trigger] text@[j] as u32) == lower@[j] as u32,
        decreases len - i,
    {
        let code: u32 = text.get_char(i) as u32;
        let folded: u32 = if 65 <= code && code <= 90 {
            code + 32
        } else {
            code
        };
        if folded != lower.get_char(i) as u32 {
            assert(ascii_lowercase(text@[i as int] as u32) != lower@[i as int] as u32);
            return false;
        }
        i += 1;
    }
    true
}

/// Chooses the protocol from what the environment says of the terminal.
///
/// A terminal known to speak the Kitty protocol keeps it, also inside a Windows
/// Terminal session.
pub fn host_graphics_protocol_for_env(enabled: bool, env: &HostEnvironment) -> (protocol:
    HostGraphicsProtocol)
    ensures
        protocol == (if !enabled {
            HostGraphicsProtocol::Disabled
        } else if !env.known_kitty_host() && env.wt_session {
            HostGraphicsProtocol::Sixel
        } else {
            HostGraphicsProtocol::Kitty
        }),
{
    if !enabled {
        return HostGraphicsProtocol::Disabled;
    }
    if env.is_known_kitty_host() {
        HostGraphicsProtocol::Kitty
    } else if env.wt_session {
        HostGraphicsProtocol::Sixel
    } else {
        HostGraphicsProtocol::Kitty
    }
}

/// How many pieces of at most `size` bytes `len` bytes fall into.
pub open spec fn chunk_count(len: nat, size: nat) -> nat {
    ((len + size - 1) / size as int) as nat
}

/// The `index`-th piece of `bytes`; all but the last one are `size` bytes long.
pub open spec fn chunk(bytes: Seq<u8>, size: nat, index: int) -> Seq<u8> {
    bytes.subrange(
        index * size,
        if (index + 1) * size <= bytes.len() {
            (index + 1) * size
        } else {
            bytes.len() as int
        },
    )
}

/// The writes by which `bytes` reach a host that takes `protocol`.
pub open spec fn host_writes(protocol: HostGraphicsProtocol, bytes: Seq<u8>) -> Seq<Seq<u8>> {
    if protocol == HostGraphicsProtocol::Sixel {
        Seq::new(
            chunk_count(bytes.len(), SIXEL_WRITE_CHUNK_BYTES as nat),
            |i: int| chunk(bytes, SIXEL_WRITE_CHUNK_BYTES as nat, i),
        )
    } else {
        seq![bytes]
    }
}

/// Splits host graphics bytes into the writes to make, in order, bounding each
/// write so ConPTY keeps draining.
pub fn write_host_output<'a>(protocol: HostGraphicsProtocol, bytes: &'a [u8]) -> (writes: Vec<
    &'a [u8],
>)
    ensures
        writes@.map_values(|write: &[u8]| write@) == host_writes(protocol, bytes@),
{
    let mut writes: Vec<&'a [u8]> = Vec::new();
    if protocol.is_sixel() {
        let ghost size = SIXEL_WRITE_CHUNK_BYTES as nat;
        let ghost count = chunk_count(bytes@.len(), size);
        let mut start: usize = 0;
        proof {
            lemma_chunk_bounds(bytes@.len(), 0);
        }
        while start < bytes.len()
            invariant
                size == SIXEL_WRITE_CHUNK_BYTES,
                count == chunk_count(bytes@.len(), size),
                writes@.len() <= count,
                start == chunk_start(bytes@.len(), writes@.len() as int),
                forall|i: int|
                    0 <= i < writes@.len() ==> (#[trigger] writes@[i])@ == chunk(bytes@, size, i),
            decreases bytes@.len() - start,
        {
            proof {
                lemma_chunk_bounds(bytes@.len(), writes@.len() as int);
                lemma_chunk_bounds(bytes@.len(), (writes@.len() + 1) as int);
            }
            let end: usize = if bytes.len() - start > SIXEL_WRITE_CHUNK_BYTES {
                start + SIXEL_WRITE_CHUNK_BYTES
            } else {
                bytes.len()
            };
            writes.push(vstd::slice::slice_subrange(bytes, start, end));
            start = end;
        }
        proof {
            lemma_chunk_bounds(bytes@.len(), writes@.len() as int);
            assert(writes@.map_values(|write: &[u8]| write@) =~= host_writes(protocol, bytes@));
        }
    } else {
        writes.push(bytes);
        assert(writes@.map_values(|write: &[u8]| write@) =~= host_writes(protocol, bytes@));
    }
    writes
}

/// Where piece `n` of `len` bytes starts, and piece `n - 1` ends.
spec fn chunk_start(len: nat, n: int) -> int {
    if n * SIXEL_WRITE_CHUNK_BYTES <= len {
        n * SIXEL_WRITE_CHUNK_BYTES
    } else {
        len as int
    }
}

/// The pieces follow each other, are as long as they may be, and end with the last.
proof fn lemma_chunk_bounds(len: nat, n: int)
    requires
        0 <= n,
    ensures
        n * SIXEL_WRITE_CHUNK_BYTES == n * 16384,
        (n + 1) * SIXEL_WRITE_CHUNK_BYTES == n * 16384 + 16384,
        chunk_count(len, SIXEL_WRITE_CHUNK_BYTES as nat) == (len + 16383) / 16384,
        n < chunk_count(len, SIXEL_WRITE_CHUNK_BYTES as nat) <==> n * 16384 < len,
        n == 0 ==> chunk_start(len, n) == 0,
{
    assert(n * SIXEL_WRITE_CHUNK_BYTES == n * 16384 && (n + 1) * SIXEL_WRITE_CHUNK_BYTES == n
        * 16384 + 16384) by (nonlinear_arith)
        requires
            SIXEL_WRITE_CHUNK_BYTES == 16384,
    ;
}

/// What is written is `bytes`, whole and in order.
pub proof fn host_writes_are_the_output(protocol: HostGraphicsProtocol, bytes: Seq<u8>)
    ensures
        host_writes(protocol, bytes).flatten() == bytes,
{
    if protocol == HostGraphicsProtocol::Sixel {
        let size = SIXEL_WRITE_CHUNK_BYTES as nat;
        let count = chunk_count(bytes.len(), size);
        lemma_chunks_flatten(bytes, count as int);
        assert(Seq::new(count, |i: int| chunk(bytes, size, i)).take(count as int)
            =~= host_writes(protocol, bytes));
        lemma_chunk_bounds(bytes.len(), count as int);
        assert(bytes.take(bytes.len() as int) =~= bytes);
    } else {
        seq![bytes].lemma_flatten_one_element();
    }
}

proof fn lemma_chunks_flatten(bytes: Seq<u8>, n: int)
    requires
        0 <= n <= chunk_count(bytes.len(), SIXEL_WRITE_CHUNK_BYTES as nat),
    ensures
        ({
            let size = SIXEL_WRITE_CHUNK_BYTES as nat;
            let all = Seq::new(chunk_count(bytes.len(), size), |i: int| chunk(bytes, size, i));
            all.take(n).flatten() == bytes.take(chunk_start(bytes.len(), n))
        }),
    decreases n,
{
    let size = SIXEL_WRITE_CHUNK_BYTES as nat;
    let all = Seq::new(chunk_count(bytes.len(), size), |i: int| chunk(bytes, size, i));
    if n == 0 {
        lemma_chunk_bounds(bytes.len(), 0);
        assert(all.take(0) =~= Seq::empty());
        assert(bytes.take(0) =~= Seq::empty());
    } else {
        lemma_chunks_flatten(bytes, n - 1);
        lemma_chunk_bounds(bytes.len(), n - 1);
        assert(all.take(n) =~= all.take(n - 1).push(all[n - 1]));
        all.take(n - 1).lemma_flatten_push(all[n - 1]);
        assert(bytes.take(chunk_start(bytes.len(), n)) =~= bytes.take(
            chunk_start(bytes.len(), n - 1),
        ) + all[n - 1]);
    }
}

/// A SIXEL host never gets an empty write, nor one over the bound.
pub proof fn sixel_writes_are_bounded(bytes: Seq<u8>, i: int)
    requires
        0 <= i < host_writes(HostGraphicsProtocol::Sixel, bytes).len(),
    ensures
        0 < host_writes(HostGraphicsProtocol::Sixel, bytes)[i].len() <= SIXEL_WRITE_CHUNK_BYTES,
{
    lemma_chunk_bounds(bytes.len(), i);
}

/// A SIXEL host gets the output in pieces of 16 KiB, in order, and the rest as the
/// last piece.
pub proof fn sixel_writes_are_full_but_the_last(bytes: Seq<u8>, i: int, j: int)
    requires
        0 <= i < host_writes(HostGraphicsProtocol::Sixel, bytes).len(),
        0 <= j < host_writes(HostGraphicsProtocol::Sixel, bytes)[i].len(),
    ensures
        ({
            let writes = host_writes(HostGraphicsProtocol::Sixel, bytes);
            &&& (writes.len() - 1) * 16384 < bytes.len() <= writes.len() * 16384
            &&& i < writes.len() - 1 ==> writes[i].len() == 16384
            &&& i == writes.len() - 1 ==> writes[i].len() == bytes.len() - i * 16384
            &&& writes[i][j] == bytes[i * 16384 + j]
        }),
{
    let writes = host_writes(HostGraphicsProtocol::Sixel, bytes);
    lemma_chunk_bounds(bytes.len(), i);
    lemma_chunk_bounds(bytes.len(), i + 1);
    lemma_chunk_bounds(bytes.len(), writes.len() as int);
}

/// Every other host gets the output in one write.
pub proof fn other_hosts_get_one_write(protocol: HostGraphicsProtocol, bytes: Seq<u8>)
    requires
        protocol != HostGraphicsProtocol::Sixel,
    ensures
        host_writes(protocol, bytes).len() == 1,
        host_writes(protocol, bytes)[0] == bytes,
{
}

/// `text` is `word`, each letter small or capital.
pub open spec fn spells(text: Seq<char>, word: Seq<char>) -> bool {
    &&& text.len() == word.len()
    &&& forall|i: int|
        0 <= i < word.len() ==> {
            ||| #[trigger] text[i] as u32 == word[i] as u32
            ||| text[i] as u32 + 32 == word[i] as u32
        }
}

proof fn lemma_spells(text: Seq<char>, word: Seq<char>)
    requires
        forall|i: int| 0 <= i < word.len() ==> 97 <= #[trigger] word[i] as u32 <= 122,
    ensures
        reads_in_lowercase(text, word) <==> spells(text, word),
{
    if reads_in_lowercase(text, word) {
        assert forall|i: int| 0 <= i < word.len() implies {
            ||| #[trigger] text[i] as u32 == word[i] as u32
            ||| text[i] as u32 + 32 == word[i] as u32
        } by {
            assert(ascii_lowercase(text[i] as u32) == word[i] as u32);
        }
    }
    if spells(text, word) {
        assert forall|i: int| 0 <= i < text.len() implies ascii_lowercase(
            #[trigger] text[i] as u32,
        ) == word[i] as u32 by {
            assert(97 <= word[i] as u32 <= 122);
        }
    }
}

/// A host is known to speak the Kitty protocol by one of three variables, or by one of
/// three names, in small or capital letters.
pub proof fn kitty_hosts_are_known_by_variable_or_name(env: HostEnvironment)
    ensures
        env.known_kitty_host() <==> {
            ||| env.kitty_window_id
            ||| env.ghostty_resources_dir
            ||| env.wezterm_pane
            ||| env.term_program matches Some(name) && (spells(name@, "kitty"@) || spells(
                name@,
                "ghostty"@,
            ) || spells(name@, "wezterm"@))
        },
{
    reveal_strlit("kitty");
    reveal_strlit("ghostty");
    reveal_strlit("wezterm");
    if let Some(name) = env.term_program {
        lemma_spells(name@, "kitty"@);
        lemma_spells(name@, "ghostty"@);
        lemma_spells(name@, "wezterm"@);
    }
}

} // verus!
