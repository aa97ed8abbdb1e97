//! Finding games on the local network, as far as it is not the network itself: what a
//! host's name may look like once it has arrived, before anything draws it, and which of
//! its addresses are worth dialing.
use vstd::prelude::*;

verus! {

/// How many characters of a host's name are ever drawn.
pub const NAME_CHARS: usize = 32;

/// A control character: the Unicode general category Cc, which is the C0 block, DEL and
/// the C1 block.
pub open spec fn is_control_spec(c: char) -> bool {
    (c as u32) < 0x20 || (0x7f <= (c as u32) && (c as u32) <= 0x9f)
}

/// A character with the Unicode White_Space property.
pub open spec fn is_white_space_spec(c: char) -> bool {
    let u = c as u32;
    ||| 0x09 <= u <= 0x0d
    ||| u == 0x20
    ||| u == 0x85
    ||| u == 0xa0
    ||| u == 0x1680
    ||| 0x2000 <= u <= 0x200a
    ||| u == 0x2028
    ||| u == 0x2029
    ||| u == 0x202f
    ||| u == 0x205f
    ||| u == 0x3000
}

/// Is this a control character?
pub fn is_control(c: char) -> (r: bool)
    ensures
        r == is_control_spec(c),
{
    let u = c as u32;
    u < 0x20 || (0x7f <= u && u <= 0x9f)
}

/// Is this white space?
pub fn is_white_space(c: char) -> (r: bool)
    ensures
        r == is_white_space_spec(c),
{
    let u = c as u32;
    (0x09 <= u && u <= 0x0d) || u == 0x20 || u == 0x85 || u == 0xa0 || u == 0x1680 || (0x2000
        <= u && u <= 0x200a) || u == 0x2028 || u == 0x2029 || u == 0x202f || u == 0x205f || u
        == 0x3000
}

/// The characters of a name that are not control characters, in order.
pub open spec fn printable(s: Seq<char>) -> Seq<char> {
    s.filter(|c: char| !is_control_spec(c))
}

/// At most the first `n` of a run of characters.
pub open spec fn at_most(s: Seq<char>, n: nat) -> Seq<char> {
    if s.len() <= n {
        s
    } else {
        s.take(n as int)
    }
}

/// A run of characters with the white space at its front taken off.
pub open spec fn trim_start(s: Seq<char>) -> Seq<char>
    decreases s.len(),
{
    if s.len() > 0 && is_white_space_spec(s[0]) {
        trim_start(s.drop_first())
    } else {
        s
    }
}

/// A run of characters with the white space at its back taken off.
pub open spec fn trim_end(s: Seq<char>) -> Seq<char>
    decreases s.len(),
{
    if s.len() > 0 && is_white_space_spec(s.last()) {
        trim_end(s.drop_last())
    } else {
        s
    }
}

/// A host's name as it is drawn: its first [`NAME_CHARS`] printable characters with the
/// white space at both ends taken off, or a name that says there was none.
pub open spec fn readable_spec(name: Seq<char>, nameless: Seq<char>) -> Seq<char> {
    let t = trim_end(trim_start(at_most(printable(name), NAME_CHARS as nat)));
    if t.len() == 0 {
        nameless
    } else {
        t
    }
}

/// White space at the front, up to `a`, goes; what starts at a character that is not white
/// space stays.
proof fn lemma_trim_start_at(s: Seq<char>, a: int)
    requires
        0 <= a <= s.len(),
        forall|k: int| 0 <= k < a ==> is_white_space_spec(#[trigger] s[k]),
        a < s.len() ==> !is_white_space_spec(s[a]),
    ensures
        trim_start(s) == s.skip(a),
    decreases a,
{
    if a > 0 {
        let rest = s.drop_first();
        assert forall|k: int| 0 <= k < a - 1 implies is_white_space_spec(#[trigger] rest[k]) by {
            assert(rest[k] == s[k + 1]);
            assert(is_white_space_spec(s[k + 1]));
        }
        assert(is_white_space_spec(s[0]));
        if a < s.len() {
            assert(rest[a - 1] == s[a]);
        }
        lemma_trim_start_at(rest, a - 1);
        assert(rest.skip(a - 1) =~= s.skip(a));
    } else {
        assert(s.skip(0) =~= s);
    }
}

/// White space at the back, from `b` on, goes; what ends at a character that is not white
/// space stays.
proof fn lemma_trim_end_at(s: Seq<char>, b: int)
    requires
        0 <= b <= s.len(),
        forall|k: int| b <= k < s.len() ==> is_white_space_spec(#[trigger] s[k]),
        b > 0 ==> !is_white_space_spec(s[b - 1]),
    ensures
        trim_end(s) == s.take(b),
    decreases s.len() - b,
{
    if b < s.len() {
        let front = s.drop_last();
        assert forall|k: int| b <= k < front.len() implies is_white_space_spec(
            #[trigger] front[k],
        ) by {
            assert(front[k] == s[k]);
            assert(is_white_space_spec(s[k]));
        }
        assert(is_white_space_spec(s[s.len() - 1]));
        if b > 0 {
            assert(front[b - 1] == s[b - 1]);
        }
        lemma_trim_end_at(front, b);
        assert(front.take(b) =~= s.take(b));
    } else {
        assert(s.take(b) =~= s);
    }
}

/// Copies a run of characters into a string.
#[verifier::external_body]
fn string_of(chars: &[char]) -> (r: String)
    ensures
        r@ == chars@,
{
    chars.iter().collect()
}

/// A host's name as it is safe to draw: one line, bounded, and never empty.
///
/// The name arrives over the network from a machine nobody here vouches for, so a
/// kilobyte of newlines must not become a menu that fills the screen.
pub fn readable(name: &str) -> (r: String)
    ensures
        r@ == readable_spec(name@, "a nameless world"@),
{
    let n = name.unicode_len();
    let ghost pred = |c: char| !is_control_spec(c);
    let mut kept: Vec<char> = Vec::new();
    let mut i: usize = 0;
    while i < n && kept.len() < NAME_CHARS
        invariant
            n == name@.len(),
            i <= n,
            kept@ == printable(name@.take(i as int)),
            kept@.len() <= NAME_CHARS,
        decreases n - i,
    {
        let c = name.get_char(i);
        proof {
            let pre = name@.take(i as int);
            assert(name@.take(i + 1) =~= pre + seq![c]);
            Seq::<char>::filter_distributes_over_add(pre, seq![c], pred);
            reveal_with_fuel(Seq::filter, 2);
            assert(seq![c].drop_last() =~= Seq::<char>::empty());
        }
        if !is_control(c) {
            kept.push(c);
        }
        i = i + 1;
    }
    proof {
        let pre = name@.take(i as int);
        let post = name@.skip(i as int);
        assert(name@ =~= pre + post);
        Seq::<char>::filter_distributes_over_add(pre, post, pred);
        if i < n {
            assert(kept@.len() == NAME_CHARS);
            assert(printable(name@).take(NAME_CHARS as int) =~= kept@);
        } else {
            assert(pre =~= name@);
        }
        assert(kept@ == at_most(printable(name@), NAME_CHARS as nat));
    }
    let len = kept.len();
    let mut a: usize = 0;
    while a < len && is_white_space(kept[a])
        invariant
            a <= len,
            len == kept@.len(),
            forall|k: int| 0 <= k < a ==> is_white_space_spec(#[trigger] kept@[k]),
        decreases len - a,
    {
        a = a + 1;
    }
    proof {
        lemma_trim_start_at(kept@, a as int);
    }
    let mut b: usize = len;
    while b > a && is_white_space(kept[b - 1])
        invariant
            a <= b <= len,
            len == kept@.len(),
            forall|k: int| b <= k < len ==> is_white_space_spec(#[trigger] kept@[k]),
        decreases b,
    {
        b = b - 1;
    }
    proof {
        let rest = kept@.skip(a as int);
        assert forall|k: int| b - a <= k < rest.len() implies is_white_space_spec(
            #[trigger] rest[k],
        ) by {
            assert(rest[k] == kept@[k + a]);
        }
        if b > a {
            assert(rest[b - a - 1] == kept@[b - 1]);
        }
        lemma_trim_end_at(rest, b - a);
        assert(rest.take(b - a) =~= kept@.subrange(a as int, b as int));
    }
    if a == b {
        return String::from_str("a nameless world");
    }
    string_of(vstd::slice::slice_subrange(kept.as_slice(), a, b))
}

/// An IP address: four bytes or sixteen, read as one big-endian number.
#[derive(Clone, Copy, PartialEq, Eq, Debug, Structural)]
pub enum Ip {
    V4(u32),
    V6(u128),
}

/// A socket address, with everything that tells two of them apart.
#[derive(Clone, Copy, PartialEq, Eq, Debug, Structural)]
pub enum Addr {
    V4 { ip: u32, port: u16 },
    V6 { ip: u128, port: u16, flowinfo: u32, scope_id: u32 },
}

/// The port of an address.
pub open spec fn port_of(a: Addr) -> u16 {
    match a {
        Addr::V4 { port, .. } => port,
        Addr::V6 { port, .. } => port,
    }
}

/// An address made of an IP and a port, with no flow label and no scope.
pub open spec fn addr_spec(ip: Ip, port: u16) -> Addr {
    match ip {
        Ip::V4(v) => Addr::V4 { ip: v, port },
        Ip::V6(v) => Addr::V6 { ip: v, port, flowinfo: 0, scope_id: 0 },
    }
}

impl Addr {
    /// The port this address is on.
    pub fn port(self) -> (r: u16)
        ensures
            r == port_of(self),
    {
        match self {
            Addr::V4 { port, .. } => port,
            Addr::V6 { port, .. } => port,
        }
    }

    /// An address made of an IP and a port, with no flow label and no scope.
    pub fn new(ip: Ip, port: u16) -> (r: Addr)
        ensures
            r == addr_spec(ip, port),
    {
        match ip {
            Ip::V4(v) => Addr::V4 { ip: v, port },
            Ip::V6(v) => Addr::V6 { ip: v, port, flowinfo: 0, scope_id: 0 },
        }
    }
}

/// For the first `i` addresses a host claimed, in order: the address that answered, on
/// that one's port, wherever the host did not already claim it.
pub open spec fn proven(claimed: Seq<Addr>, from: Ip, i: int) -> Seq<Addr>
    decreases i,
{
    if i <= 0 {
        Seq::empty()
    } else {
        let p = addr_spec(from, port_of(claimed[i - 1]));
        proven(claimed, from, i - 1) + if claimed.contains(p) {
            Seq::empty()
        } else {
            seq![p]
        }
    }
}

/// Does the list hold the address?
fn holds(list: &[Addr], a: Addr) -> (r: bool)
    ensures
        r == list@.contains(a),
{
    let mut i: usize = 0;
    while i < list.len()
        invariant
            i <= list@.len(),
            forall|k: int| 0 <= k < i ==> list@[k] != a,
        decreases list@.len() - i,
    {
        if list[i] == a {
            return true;
        }
        i = i + 1;
    }
    false
}

/// Every address a host claimed, then the address its answer came from paired with each
/// port it claimed, where that pairing is not already among them.
///
/// The address an answer arrived from is the one address known to work in this direction,
/// so it is always offered; a host behind a bridge lists addresses that cannot be reached
/// from here, and dialing only those is dialing nothing.
pub fn dialable(claimed: &[Addr], answered_from: Ip) -> (r: Vec<Addr>)
    ensures
        r@ == claimed@ + proven(claimed@, answered_from, claimed@.len() as int),
{
    let mut addrs: Vec<Addr> = Vec::new();
    let mut i: usize = 0;
    while i < claimed.len()
        invariant
            i <= claimed@.len(),
            addrs@ == claimed@.take(i as int),
        decreases claimed@.len() - i,
    {
        addrs.push(claimed[i]);
        proof {
            assert(claimed@.take(i + 1) =~= claimed@.take(i as int).push(claimed@[i as int]));
        }
        i = i + 1;
    }
    assert(claimed@.take(claimed@.len() as int) =~= claimed@);
    let mut j: usize = 0;
    while j < claimed.len()
        invariant
            j <= claimed@.len(),
            addrs@ == claimed@ + proven(claimed@, answered_from, j as int),
        decreases claimed@.len() - j,
    {
        let p = Addr::new(answered_from, claimed[j].port());
        if !holds(claimed, p) {
            addrs.push(p);
        }
        proof {
            let before = claimed@ + proven(claimed@, answered_from, j as int);
            if claimed@.contains(p) {
                assert(proven(claimed@, answered_from, j + 1) =~= proven(claimed@, answered_from, j as int));
            } else {
                assert(before.push(p) =~= claimed@ + proven(claimed@, answered_from, j + 1));
            }
        }
        j = j + 1;
    }
    addrs
}

} // verus!
