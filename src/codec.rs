//! Blocks, their canonical text and their content hash.
//!
//! The canonical text of a block is a JSON object with the fields in the
//! order `index`, `nonce`, `timestamp`, `data`, `prev_hash`; the content hash
//! is the lowercase hex form of the SHA-256 digest of that text.
use sha2::Digest;
use vstd::prelude::*;
use vstd::string::*;

verus! {

/// The last second of the year 9999: no block carries a later time.
pub const MAX_SECS: i64 = 253402300799;

pub const NANOS_PER_SEC: u32 = 1000000000;

/// A UTC instant as whole seconds since the Unix epoch and the nanoseconds
/// past that second.
#[derive(Clone, Copy, Debug, PartialEq, Eq, Structural)]
pub struct Timestamp {
    pub secs: i64,
    pub nanos: u32,
}

impl Timestamp {
    /// An instant between the epoch and the end of the year 9999, without a
    /// leap second.
    pub open spec fn wf(self) -> bool {
        0 <= self.secs <= MAX_SECS && self.nanos < NANOS_PER_SEC
    }

    pub fn new(secs: i64, nanos: u32) -> (r: Option<Timestamp>)
        ensures
            r == (if 0 <= secs <= MAX_SECS && nanos < NANOS_PER_SEC {
                Some(Timestamp { secs, nanos })
            } else {
                None
            }),
    {
        if 0 <= secs && secs <= MAX_SECS && nanos < NANOS_PER_SEC {
            Some(Timestamp { secs, nanos })
        } else {
            None
        }
    }

    pub fn is_valid(&self) -> (r: bool)
        ensures
            r == self.wf(),
    {
        0 <= self.secs && self.secs <= MAX_SECS && self.nanos < NANOS_PER_SEC
    }
}

/// One entry of the ledger.
#[derive(Clone, Debug, PartialEq, Eq)]
pub struct Block {
    pub index: u64,
    pub nonce: Option<u32>,
    pub timestamp: Timestamp,
    pub data: String,
    pub prev_hash: String,
}

/// The SHA-256 digest of the UTF-8 encoding of a text.
pub uninterp spec fn sha256_of(text: Seq<char>) -> Seq<u8>;

/// The RFC 3339 text of a UTC instant, with `Z` for the offset and the
/// fraction of a second in 3, 6 or 9 digits, the fewest that show every
/// non-zero digit, or none when it is zero.
pub uninterp spec fn rfc3339_of(secs: int, nanos: int) -> Seq<char>;

pub open spec fn hex_digit(v: int) -> char {
    seq!['0', '1', '2', '3', '4', '5', '6', '7', '8', '9', 'a', 'b', 'c', 'd', 'e', 'f'][v]
}

/// Two lowercase hex digits per byte, the high half first.
pub open spec fn hex_of(bytes: Seq<u8>) -> Seq<char>
    decreases bytes.len(),
{
    if bytes.len() == 0 {
        Seq::empty()
    } else {
        let b = bytes.last();
        hex_of(bytes.drop_last()) + seq![hex_digit(b as int / 16), hex_digit(b as int % 16)]
    }
}

/// The JSON escape of one character inside a string literal.
pub open spec fn escape_char(c: char) -> Seq<char> {
    if c == '"' {
        seq!['\\', '"']
    } else if c == '\\' {
        seq!['\\', '\\']
    } else if c == '\u{8}' {
        seq!['\\', 'b']
    } else if c == '\t' {
        seq!['\\', 't']
    } else if c == '\n' {
        seq!['\\', 'n']
    } else if c == '\u{c}' {
        seq!['\\', 'f']
    } else if c == '\r' {
        seq!['\\', 'r']
    } else if (c as u32) < 0x20 {
        seq!['\\', 'u', '0', '0', hex_digit((c as u32 / 16) as int), hex_digit((c as u32 % 16) as int)]
    } else {
        seq![c]
    }
}

pub open spec fn json_escape(s: Seq<char>) -> Seq<char>
    decreases s.len(),
{
    if s.len() == 0 {
        Seq::empty()
    } else {
        json_escape(s.drop_last()) + escape_char(s.last())
    }
}

/// A text as a JSON string literal.
pub open spec fn json_quoted(s: Seq<char>) -> Seq<char> {
    seq!['"'] + json_escape(s) + seq!['"']
}

pub open spec fn dec_digit(d: int) -> char {
    seq!['0', '1', '2', '3', '4', '5', '6', '7', '8', '9'][d]
}

/// The decimal digits of a natural number, without leading zeros.
pub open spec fn dec_of(n: nat) -> Seq<char>
    decreases n,
{
    if n < 10 {
        seq![dec_digit(n as int)]
    } else {
        dec_of(n / 10) + seq![dec_digit((n % 10) as int)]
    }
}

pub open spec fn nonce_text(nonce: Option<u32>) -> Seq<char> {
    match nonce {
        Some(n) => dec_of(n as nat),
        None => "null"@,
    }
}

/// The canonical text of a block: a JSON object of its five fields.
pub open spec fn canonical(b: Block) -> Seq<char> {
    "{\"index\":"@ + dec_of(b.index as nat) + ",\"nonce\":"@ + nonce_text(b.nonce)
        + ",\"timestamp\":"@ + json_quoted(rfc3339_of(b.timestamp.secs as int, b.timestamp.nanos as int))
        + ",\"data\":"@ + json_quoted(b.data@) + ",\"prev_hash\":"@ + json_quoted(b.prev_hash@)
        + "}"@
}

/// The content hash of a block.
pub open spec fn block_hash(b: Block) -> Seq<char> {
    hex_of(sha256_of(canonical(b)))
}

pub proof fn lemma_hex_len(bytes: Seq<u8>)
    ensures
        hex_of(bytes).len() == 2 * bytes.len(),
    decreases bytes.len(),
{
    if bytes.len() > 0 {
        lemma_hex_len(bytes.drop_last());
    }
}

/// Relies on `sha2::Sha256::digest`: the 32-byte SHA-256 digest of the
/// text's UTF-8 bytes, which depends on the text alone.
#[verifier::external_body]
fn sha256(text: &str) -> (r: Vec<u8>)
    ensures
        r@ == sha256_of(text@),
        r@.len() == 32,
{
    sha2::Sha256::digest(text.as_bytes()).to_vec()
}

/// Relies on `hex::encode`: two lowercase hex digits per byte, high half first.
#[verifier::external_body]
fn to_hex(bytes: &[u8]) -> (r: String)
    ensures
        r@ == hex_of(bytes@),
{
    hex::encode(bytes)
}

/// Relies on `serde_json::to_string` of a `str`: the text between double
/// quotes, with `"` and `\` escaped, the short escapes for backspace, tab,
/// line feed, form feed and carriage return, `\u00xx` for the other control
/// characters and every other character as it is.
#[verifier::external_body]
pub(crate) fn json_quote(s: &str) -> (r: String)
    ensures
        r@ == json_quoted(s@),
{
    serde_json::to_string(s).unwrap()
}

/// Relies on `chrono::DateTime::<Utc>::from_timestamp`, which accepts every
/// instant of `Timestamp::wf`, and on `to_rfc3339_opts` with automatic
/// fractional digits and `Z`: a text that depends on the instant alone.
#[verifier::external_body]
fn rfc3339(secs: i64, nanos: u32) -> (r: String)
    requires
        (Timestamp { secs, nanos }).wf(),
    ensures
        r@ == rfc3339_of(secs as int, nanos as int),
{
    chrono::DateTime::<chrono::Utc>::from_timestamp(secs, nanos).unwrap().to_rfc3339_opts(
        chrono::SecondsFormat::AutoSi,
        true,
    )
}

/// Relies on `std::time::SystemTime::now` and `duration_since(UNIX_EPOCH)`:
/// the clock's reading as whole seconds and nanoseconds since the epoch, or
/// `None` when it reads before the epoch. `Duration::subsec_nanos` is
/// documented to be less than one billion. Nothing else is known of the value.
#[verifier::external_body]
fn since_epoch() -> (r: Option<(u64, u32)>)
    ensures
        r matches Some(p) ==> p.1 < NANOS_PER_SEC,
{
    match std::time::SystemTime::now().duration_since(std::time::UNIX_EPOCH) {
        Ok(d) => Some((d.as_secs(), d.subsec_nanos())),
        Err(_) => None,
    }
}

/// The clock's reading. A reading before the epoch or after the year 9999
/// comes back as an instant that `Timestamp::wf` rejects.
pub(crate) fn clock_now() -> (r: Timestamp) {
    match since_epoch() {
        Some((secs, nanos)) => {
            if secs <= MAX_SECS as u64 {
                Timestamp { secs: secs as i64, nanos }
            } else {
                Timestamp { secs: i64::MAX, nanos }
            }
        },
        None => Timestamp { secs: -1, nanos: 0 },
    }
}

fn digit_text(d: u64) -> (r: &'static str)
    requires
        d < 10,
    ensures
        r@ == seq![dec_digit(d as int)],
{
    let digits: &'static str = "0123456789";
    proof {
        reveal_strlit("0123456789");
    }
    let r = digits.substring_char(d as usize, d as usize + 1);
    assert(r@ =~= seq![dec_digit(d as int)]);
    r
}

/// Appends the decimal digits of `n`.
fn push_decimal(out: &mut String, n: u64)
    ensures
        final(out)@ == old(out)@ + dec_of(n as nat),
    decreases n,
{
    if n >= 10 {
        push_decimal(out, n / 10);
        out.append(digit_text(n % 10));
        assert(final(out)@ =~= old(out)@ + dec_of(n as nat));
    } else {
        out.append(digit_text(n));
    }
}

/// Appends `s` as a JSON string literal.
fn push_quoted(out: &mut String, s: &str)
    ensures
        final(out)@ == old(out)@ + json_quoted(s@),
{
    let q = json_quote(s);
    out.append(q.as_str());
}

/// Texts joined with commas.
pub open spec fn joined(items: Seq<Seq<char>>) -> Seq<char>
    decreases items.len(),
{
    if items.len() == 0 {
        Seq::empty()
    } else if items.len() == 1 {
        items[0]
    } else {
        joined(items.drop_last()) + ","@ + items.last()
    }
}

/// Texts that are JSON values, as a JSON array.
pub open spec fn list_text(items: Seq<Seq<char>>) -> Seq<char> {
    "["@ + joined(items) + "]"@
}

pub open spec fn views(items: Seq<String>) -> Seq<Seq<char>> {
    items.map_values(|s: String| s@)
}

/// The first `n` texts of `items` as a JSON array.
pub fn list_of(items: &Vec<String>, n: usize) -> (r: String)
    requires
        n <= items@.len(),
    ensures
        r@ == list_text(views(items@).take(n as int)),
{
    let mut out = String::from_str("[");
    let mut i: usize = 0;
    while i < n
        invariant
            i <= n <= items@.len(),
            out@ == "["@ + joined(views(items@).take(i as int)),
        decreases n - i,
    {
        let ghost before = out@;
        if i > 0 {
            out.append(",");
        }
        out.append(items[i].as_str());
        proof {
            let v = views(items@);
            assert(v.take(i + 1).drop_last() =~= v.take(i as int));
            assert(v.take(i + 1).last() == items@[i as int]@);
            if i == 0 {
                assert(joined(v.take(0)) =~= Seq::<char>::empty());
                assert(joined(v.take(1)) == v.take(1)[0]);
                assert(out@ =~= "["@ + joined(v.take(i + 1)));
            } else {
                assert(out@ =~= "["@ + joined(v.take(i + 1)));
            }
        }
        i += 1;
    }
    out.append("]");
    out
}

/// The canonical texts of blocks, as a JSON array.
pub open spec fn blocks_text(blocks: Seq<Block>) -> Seq<char> {
    list_text(blocks.map_values(|b: Block| canonical(b)))
}

/// The blocks' canonical texts as a JSON array: what a peer is sent.
pub fn blocks_message(blocks: &Vec<Block>) -> (r: String)
    requires
        forall|i: int| 0 <= i < blocks@.len() ==> (#[trigger] blocks@[i]).wf(),
    ensures
        r@ == blocks_text(blocks@),
{
    let mut texts: Vec<String> = Vec::new();
    let mut i: usize = 0;
    while i < blocks.len()
        invariant
            i <= blocks@.len(),
            forall|j: int| 0 <= j < blocks@.len() ==> (#[trigger] blocks@[j]).wf(),
            texts@.len() == i,
            forall|j: int| 0 <= j < i ==> (#[trigger] texts@[j])@ == canonical(blocks@[j]),
        decreases blocks@.len() - i,
    {
        texts.push(blocks[i].encode());
        i += 1;
    }
    let r = list_of(&texts, texts.len());
    assert(views(texts@).take(texts@.len() as int) =~= blocks@.map_values(|b: Block| canonical(b)));
    r
}

/// The announcement of a node's address: a JSON object with the field `url`.
pub open spec fn address_text(address: Seq<char>) -> Seq<char> {
    "{\"url\":"@ + json_quoted(address) + "}"@
}

pub fn address_message(address: &str) -> (r: String)
    ensures
        r@ == address_text(address@),
{
    let mut out = String::from_str("{\"url\":");
    push_quoted(&mut out, address);
    out.append("}");
    assert(out@ =~= address_text(address@));
    out
}

impl Block {
    pub open spec fn wf(self) -> bool {
        self.timestamp.wf()
    }

    /// A field-by-field copy.
    pub fn duplicate(&self) -> (r: Block)
        ensures
            r == *self,
    {
        Block {
            index: self.index,
            nonce: self.nonce,
            timestamp: self.timestamp,
            data: self.data.clone(),
            prev_hash: self.prev_hash.clone(),
        }
    }

    /// The canonical text of the block.
    pub fn encode(&self) -> (r: String)
        requires
            self.wf(),
        ensures
            r@ == canonical(*self),
    {
        let mut out = String::from_str("{\"index\":");
        push_decimal(&mut out, self.index);
        out.append(",\"nonce\":");
        match self.nonce {
            Some(n) => push_decimal(&mut out, n as u64),
            None => out.append("null"),
        }
        out.append(",\"timestamp\":");
        let when = rfc3339(self.timestamp.secs, self.timestamp.nanos);
        push_quoted(&mut out, when.as_str());
        out.append(",\"data\":");
        push_quoted(&mut out, self.data.as_str());
        out.append(",\"prev_hash\":");
        push_quoted(&mut out, self.prev_hash.as_str());
        out.append("}");
        assert(out@ =~= canonical(*self));
        out
    }

    /// The content hash: 64 lowercase hex digits.
    pub fn hash(&self) -> (r: String)
        requires
            self.wf(),
        ensures
            r@ == block_hash(*self),
            r@.len() == 64,
    {
        let text = self.encode();
        let digest = sha256(text.as_str());
        let r = to_hex(digest.as_slice());
        proof {
            lemma_hex_len(digest@);
        }
        r
    }
}

} // verus!
