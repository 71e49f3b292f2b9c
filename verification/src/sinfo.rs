//! Parsing of `sinfo` output into per-node records.
use vstd::prelude::*;
use vstd::string::*;
use crate::text::{
    chars_eq, chars_of, find_char, is_ws, is_ws_char, lines, lines_of, slice_chars, string_of,
    trim, trim_chars, views, words, split_on,
};
use crate::nodelist::{
    error_lit, expand_nodelist_chars, expand_nodelist_spec, vviews, NodeListParseError,
};

verus! {

/// State of a compute node as reported by sinfo.
#[derive(Clone, Debug, PartialEq, Eq)]
pub enum NodeState {
    Allocated,
    Mixed,
    Idle,
    /// Node is being drained (still running jobs but accepts no new ones).
    Draining,
    /// Node has been fully drained.
    Drained,
    Down,
    /// Any other state string we don't explicitly model.
    Other(String),
}

/// `s` without its trailing `*`, `~`, `#` and `!` flags.
pub open spec fn strip_state_flags(s: Seq<char>) -> Seq<char>
    decreases s.len(),
{
    if s.len() > 0 && (s.last() == '*' || s.last() == '~' || s.last() == '#' || s.last()
        == '!') {
        strip_state_flags(s.drop_last())
    } else {
        s
    }
}

/// Whether `st` is the state that the sinfo state text `s` names.
pub open spec fn names_state(s: Seq<char>, st: NodeState) -> bool {
    let c = strip_state_flags(s);
    match st {
        NodeState::Allocated => c == "alloc"@ || c == "allocated"@,
        NodeState::Mixed => c == "mix"@ || c == "mixed"@,
        NodeState::Idle => c == "idle"@,
        NodeState::Draining => c == "drng"@ || c == "draining"@,
        NodeState::Drained => c == "drain"@ || c == "drained"@,
        NodeState::Down => c == "down"@,
        NodeState::Other(x) => x@ == c && !(c == "alloc"@ || c == "allocated"@ || c == "mix"@
            || c == "mixed"@ || c == "idle"@ || c == "drng"@ || c == "draining"@ || c
            == "drain"@ || c == "drained"@ || c == "down"@),
    }
}

/// `s` is the literal `lit`.
fn is_lit(s: &[char], lit: &str) -> (b: bool)
    ensures
        b == (s@ == lit@),
{
    let l = chars_of(lit);
    chars_eq(s, l.as_slice())
}

impl NodeState {
    /// Read a state from its sinfo text (flag suffixes are ignored).
    pub fn from_str(s: &str) -> (st: Self)
        ensures
            names_state(s@, st),
    {
        let v = chars_of(s);
        Self::from_chars(v.as_slice())
    }

    pub fn from_chars(s: &[char]) -> (st: Self)
        ensures
            names_state(s@, st),
    {
        let mut end: usize = s.len();
        assert(s@.take(end as int) =~= s@);
        while end > 0 && (s[end - 1] == '*' || s[end - 1] == '~' || s[end - 1] == '#' || s[end
            - 1] == '!')
            invariant
                end <= s.len(),
                strip_state_flags(s@) == strip_state_flags(s@.take(end as int)),
            decreases end,
        {
            assert(s@.take(end as int).drop_last() =~= s@.take(end - 1));
            end = end - 1;
        }
        let c = slice_chars(s, 0, end);
        assert(c@ =~= s@.take(end as int));
        let c = c.as_slice();
        if is_lit(c, "alloc") || is_lit(c, "allocated") {
            NodeState::Allocated
        } else if is_lit(c, "mix") || is_lit(c, "mixed") {
            NodeState::Mixed
        } else if is_lit(c, "idle") {
            NodeState::Idle
        } else if is_lit(c, "drng") || is_lit(c, "draining") {
            NodeState::Draining
        } else if is_lit(c, "drain") || is_lit(c, "drained") {
            NodeState::Drained
        } else if is_lit(c, "down") {
            NodeState::Down
        } else {
            NodeState::Other(string_of(c))
        }
    }

    pub open spec fn spec_is_unavailable(&self) -> bool {
        self is Draining || self is Drained || self is Down
    }

    /// Returns `true` for states that indicate the node is not usable for new jobs.
    pub fn is_unavailable(&self) -> (b: bool)
        ensures
            b == self.spec_is_unavailable(),
    {
        match self {
            NodeState::Draining | NodeState::Drained | NodeState::Down => true,
            _ => false,
        }
    }

    /// A copy of this state.
    pub fn copy(&self) -> (r: Self)
        ensures
            r == *self,
    {
        match self {
            NodeState::Allocated => NodeState::Allocated,
            NodeState::Mixed => NodeState::Mixed,
            NodeState::Idle => NodeState::Idle,
            NodeState::Draining => NodeState::Draining,
            NodeState::Drained => NodeState::Drained,
            NodeState::Down => NodeState::Down,
            NodeState::Other(s) => NodeState::Other(s.clone()),
        }
    }
}

/// Everything sinfo tells us about a single compute node.
#[derive(Clone, Debug)]
pub struct NodeInfo {
    pub hostname: String,
    pub partition: String,
    pub state: NodeState,
}

impl NodeInfo {
    /// A copy of this record.
    pub fn copy(&self) -> (r: Self)
        ensures
            r == *self,
    {
        NodeInfo {
            hostname: self.hostname.clone(),
            partition: self.partition.clone(),
            state: self.state.copy(),
        }
    }
}


/// A record as text: host name, partition, and the state text.
pub type RecordText = (Seq<char>, Seq<char>, Seq<char>);

pub open spec fn info_matches(i: NodeInfo, r: RecordText) -> bool {
    &&& i.hostname@ == r.0
    &&& i.partition@ == r.1
    &&& names_state(r.2, i.state)
}

pub open spec fn infos_match(v: Seq<NodeInfo>, rs: Seq<RecordText>) -> bool {
    &&& v.len() == rs.len()
    &&& forall|i: int| 0 <= i < v.len() ==> info_matches(#[trigger] v[i], rs[i])
}

/// Index of the first whitespace character.
pub open spec fn index_ws(s: Seq<char>) -> Option<nat>
    decreases s.len(),
{
    if s.len() == 0 {
        None
    } else if is_ws(s[0]) {
        Some(0)
    } else {
        match index_ws(s.drop_first()) {
            Some(k) => Some(k + 1),
            None => None,
        }
    }
}

/// Rust's `s.splitn(3, char::is_whitespace)`.
pub open spec fn splitn3_ws(s: Seq<char>) -> Seq<Seq<char>> {
    match index_ws(s) {
        None => seq![s],
        Some(i) => {
            let rest = s.skip(i as int + 1);
            match index_ws(rest) {
                None => seq![s.take(i as int), rest],
                Some(j) => seq![s.take(i as int), rest.take(j as int), rest.skip(j as int + 1)],
            }
        },
    }
}

/// `s` without its trailing `c` characters.
pub open spec fn strip_end(s: Seq<char>, c: char) -> Seq<char>
    decreases s.len(),
{
    if s.len() > 0 && s.last() == c {
        strip_end(s.drop_last(), c)
    } else {
        s
    }
}

/// The records that one node list, partition and state text give.
pub open spec fn records_for(nodelist: Seq<char>, part: Seq<char>, st: Seq<char>) -> Result<
    Seq<RecordText>,
    Seq<char>,
> {
    if nodelist == "N/A"@ || nodelist.len() == 0 {
        Ok(Seq::empty())
    } else {
        match expand_nodelist_spec(nodelist) {
            Err(m) => Err(m),
            Ok(hs) => Ok(hs.map_values(|h: Seq<char>| (h, strip_end(part, '*'), st))),
        }
    }
}

pub open spec fn prepend_records(acc: Seq<RecordText>, r: Result<Seq<RecordText>, Seq<char>>) -> Result<
    Seq<RecordText>,
    Seq<char>,
> {
    match r {
        Ok(x) => Ok(acc + x),
        Err(m) => Err(m),
    }
}

/// Records of one line of `%N %P %t` output.
pub open spec fn fixed_line_records(line: Seq<char>) -> Result<Seq<RecordText>, Seq<char>> {
    let cols = splitn3_ws(line);
    if cols.len() < 3 {
        Ok(Seq::empty())
    } else {
        records_for(cols[0], cols[1], trim(cols[2]))
    }
}

/// Records of `%N %P %t` lines, in order; the first error is the result.
pub open spec fn fixed_format_spec(lines: Seq<Seq<char>>) -> Result<Seq<RecordText>, Seq<char>>
    decreases lines.len(),
{
    if lines.len() == 0 {
        Ok(Seq::empty())
    } else {
        match fixed_line_records(lines[0]) {
            Err(m) => Err(m),
            Ok(r) => prepend_records(r, fixed_format_spec(lines.drop_first())),
        }
    }
}

/// Index of the first whitespace character.
pub fn find_ws(s: &[char]) -> (r: Option<usize>)
    ensures
        r matches Some(k) ==> index_ws(s@) == Some(k as nat) && k < s@.len(),
        r is None ==> index_ws(s@) is None,
{
    let mut i: usize = 0;
    assert(s@.skip(0) =~= s@);
    while i < s.len()
        invariant
            i <= s.len(),
            index_ws(s@) == (match index_ws(s@.skip(i as int)) {
                Some(k) => Some((k + i) as nat),
                None => None,
            }),
        decreases s.len() - i,
    {
        assert(s@.skip(i as int)[0] == s@[i as int]);
        if is_ws_char(s[i]) {
            return Some(i);
        }
        assert(s@.skip(i as int).drop_first() =~= s@.skip(i + 1));
        i = i + 1;
    }
    None
}

pub fn splitn3_whitespace(s: &[char]) -> (r: Vec<Vec<char>>)
    ensures
        vviews(r@) == splitn3_ws(s@),
{
    let mut r: Vec<Vec<char>> = Vec::new();
    match find_ws(s) {
        None => {
            r.push(slice_chars(s, 0, s.len()));
            assert(s@.subrange(0, s@.len() as int) =~= s@);
            assert(vviews(r@) =~= seq![s@]);
        },
        Some(i) => {
            assert(i < s.len());
            let rest = slice_chars(s, i + 1, s.len());
            assert(rest@ =~= s@.skip(i as int + 1));
            let first = slice_chars(s, 0, i);
            assert(first@ =~= s@.take(i as int));
            match find_ws(rest.as_slice()) {
                None => {
                    r.push(first);
                    r.push(rest);
                    assert(vviews(r@) =~= seq![s@.take(i as int), s@.skip(i as int + 1)]);
                },
                Some(j) => {
                    assert(j < rest.len());
                    let second = slice_chars(rest.as_slice(), 0, j);
                    let third = slice_chars(rest.as_slice(), j + 1, rest.len());
                    assert(second@ =~= rest@.take(j as int));
                    assert(third@ =~= rest@.skip(j as int + 1));
                    r.push(first);
                    r.push(second);
                    r.push(third);
                    assert(vviews(r@) =~= seq![first@, second@, third@]);
                },
            }
        },
    }
    r
}

pub fn strip_end_char(s: &[char], c: char) -> (r: Vec<char>)
    ensures
        r@ == strip_end(s@, c),
{
    let mut end: usize = s.len();
    assert(s@.take(end as int) =~= s@);
    while end > 0 && s[end - 1] == c
        invariant
            end <= s.len(),
            strip_end(s@, c) == strip_end(s@.take(end as int), c),
        decreases end,
    {
        assert(s@.take(end as int).drop_last() =~= s@.take(end - 1));
        end = end - 1;
    }
    let r = slice_chars(s, 0, end);
    assert(r@ =~= s@.take(end as int));
    r
}

/// Append the records of one node list to `out`, which holds `acc`.
fn push_records(
    out: &mut Vec<NodeInfo>,
    Ghost(acc): Ghost<Seq<RecordText>>,
    nodelist: &[char],
    part: &[char],
    st: &[char],
) -> (r: Result<(), NodeListParseError>)
    requires
        infos_match(old(out)@, acc),
    ensures
        match records_for(nodelist@, part@, st@) {
            Ok(recs) => r is Ok && infos_match(final(out)@, acc + recs),
            Err(m) => r matches Err(e) && e.msg@ == m,
        },
{
    if is_lit(nodelist, "N/A") || nodelist.len() == 0 {
        assert(acc + Seq::<RecordText>::empty() =~= acc);
        return Ok(());
    }
    let hosts = match expand_nodelist_chars(nodelist) {
        Ok(h) => h,
        Err(e) => {
            return Err(e);
        },
    };
    let partition = strip_end_char(part, '*');
    let state = NodeState::from_chars(st);
    let ghost recs = vviews(hosts@).map_values(|h: Seq<char>| (h, strip_end(part@, '*'), st@));
    let ghost start = out@;
    let mut k: usize = 0;
    while k < hosts.len()
        invariant
            k <= hosts.len(),
            partition@ == strip_end(part@, '*'),
            names_state(st@, state),
            recs == vviews(hosts@).map_values(|h: Seq<char>| (h, strip_end(part@, '*'), st@)),
            infos_match(start, acc),
            out@.len() == start.len() + k,
            forall|j: int| 0 <= j < start.len() ==> out@[j] == start[j],
            forall|j: int| 0 <= j < k ==> info_matches(#[trigger] out@[start.len() + j], recs[j]),
        decreases hosts.len() - k,
    {
        let info = NodeInfo {
            hostname: string_of(hosts[k].as_slice()),
            partition: string_of(partition.as_slice()),
            state: state.copy(),
        };
        out.push(info);
        k = k + 1;
    }
    proof {
        let all = acc + recs;
        assert forall|j: int| 0 <= j < out@.len() implies info_matches(#[trigger] out@[j], all[j]) by {
            if j < start.len() {
                assert(info_matches(start[j], acc[j]));
            } else {
                assert(info_matches(out@[start.len() + (j - start.len())], recs[j - start.len()]));
            }
        }
    }
    Ok(())
}

/// Records of the `%N %P %t` format (no header, three columns).
pub fn parse_fixed_format(lines: &Vec<Vec<char>>) -> (r: Result<Vec<NodeInfo>, NodeListParseError>)
    ensures
        match fixed_format_spec(vviews(lines@)) {
            Ok(recs) => r matches Ok(v) && infos_match(v@, recs),
            Err(m) => r matches Err(e) && e.msg@ == m,
        },
{
    let ghost lv = vviews(lines@);
    let mut records: Vec<NodeInfo> = Vec::new();
    let ghost mut acc: Seq<RecordText> = Seq::empty();
    let mut i: usize = 0;
    assert(lv.skip(0) =~= lv);
    assert(fixed_format_spec(lv) == prepend_records(acc, fixed_format_spec(lv.skip(0)))) by {
        match fixed_format_spec(lv) {
            Ok(x) => {
                assert(acc + x =~= x);
            },
            Err(_) => {},
        }
    }
    while i < lines.len()
        invariant
            i <= lines.len(),
            lv == vviews(lines@),
            infos_match(records@, acc),
            fixed_format_spec(lv) == prepend_records(acc, fixed_format_spec(lv.skip(i as int))),
        decreases lines.len() - i,
    {
        assert(lv.skip(i as int)[0] == lines@[i as int]@);
        assert(lv.skip(i as int).drop_first() =~= lv.skip(i + 1));
        let cols = splitn3_whitespace(lines[i].as_slice());
        if cols.len() >= 3 {
            let st = trim_chars(cols[2].as_slice());
            match push_records(
                &mut records,
                Ghost(acc),
                cols[0].as_slice(),
                cols[1].as_slice(),
                st.as_slice(),
            ) {
                Ok(()) => {
                    proof {
                        let recs = fixed_line_records(lines@[i as int]@)->Ok_0;
                        match fixed_format_spec(lv.skip(i + 1)) {
                            Ok(x) => {
                                assert(acc + (recs + x) =~= acc + recs + x);
                            },
                            Err(_) => {},
                        }
                        acc = acc + recs;
                    }
                },
                Err(e) => {
                    return Err(e);
                },
            }
        } else {
            proof {
                match fixed_format_spec(lv.skip(i + 1)) {
                    Ok(x) => {
                        assert(Seq::<RecordText>::empty() + x =~= x);
                    },
                    Err(_) => {},
                }
            }
        }
        i = i + 1;
    }
    assert(lv.skip(i as int) =~= Seq::<Seq<char>>::empty());
    assert(acc + Seq::<RecordText>::empty() =~= acc);
    Ok(records)
}


// ---------------------------------------------------------------------------
// Header-driven table
// ---------------------------------------------------------------------------

/// Bytes that `c` takes in UTF-8.
pub open spec fn utf8_len(c: char) -> nat {
    if (c as u32) < 0x80 {
        1
    } else if (c as u32) < 0x800 {
        2
    } else if (c as u32) < 0x10000 {
        3
    } else {
        4
    }
}

/// Bytes that `s` takes in UTF-8.
pub open spec fn byte_len(s: Seq<char>) -> nat
    decreases s.len(),
{
    if s.len() == 0 {
        0
    } else {
        byte_len(s.drop_last()) + utf8_len(s.last())
    }
}

/// Character index at which each word of `s` starts.
pub open spec fn word_starts(s: Seq<char>) -> Seq<nat>
    decreases s.len(),
{
    if s.len() == 0 {
        Seq::empty()
    } else {
        let r = word_starts(s.drop_last());
        if is_ws(s.last()) {
            r
        } else if s.len() >= 2 && !is_ws(s[s.len() - 2]) {
            r
        } else {
            r.push((s.len() - 1) as nat)
        }
    }
}

/// Byte offset of each header column.
pub open spec fn column_offsets(h: Seq<char>) -> Seq<nat> {
    word_starts(h).map_values(|k: nat| byte_len(h.take(k as int)))
}

/// Number of leading characters of `s` that fit in `pos` bytes: the byte
/// position `pos` rounded down to a character boundary.
pub open spec fn char_floor(s: Seq<char>, pos: nat) -> nat
    decreases s.len(),
{
    if byte_len(s) <= pos || s.len() == 0 {
        s.len()
    } else {
        char_floor(s.drop_last(), pos)
    }
}

pub open spec fn min_nat(a: nat, b: nat) -> nat {
    if a <= b {
        a
    } else {
        b
    }
}

/// Field `k` of a table row: the row's text from column `k`'s offset up to
/// the next column's offset (both clamped to the row and rounded down to a
/// character boundary), trimmed.
pub open spec fn row_field(line: Seq<char>, offs: Seq<nat>, k: int) -> Seq<char> {
    let blen = byte_len(line);
    let start = min_nat(offs[k], blen);
    let end = if k + 1 < offs.len() {
        min_nat(offs[k + 1], blen)
    } else {
        blen
    };
    trim(line.subrange(char_floor(line, start) as int, char_floor(line, end) as int))
}

/// Index of the first column name that, upper-cased, starts with `needle`.
pub open spec fn first_col(names: Seq<Seq<char>>, needle: Seq<char>) -> Option<nat>
    decreases names.len(),
{
    if names.len() == 0 {
        None
    } else if upcase(names[0]).len() >= needle.len() && upcase(names[0]).take(
        needle.len() as int,
    ) == needle {
        Some(0)
    } else {
        match first_col(names.drop_first(), needle) {
            Some(k) => Some(k + 1),
            None => None,
        }
    }
}

pub open spec fn max3(a: nat, b: nat, c: nat) -> nat {
    if a >= b && a >= c {
        a
    } else if b >= c {
        b
    } else {
        c
    }
}

/// Records of one data row of the table.
pub open spec fn table_row_records(
    line: Seq<char>,
    offs: Seq<nat>,
    p: nat,
    st: nat,
    nd: nat,
) -> Result<Seq<RecordText>, Seq<char>> {
    if offs.len() <= max3(nd, st, p) {
        Ok(Seq::empty())
    } else {
        records_for(
            trim(row_field(line, offs, nd as int)),
            row_field(line, offs, p as int),
            trim(row_field(line, offs, st as int)),
        )
    }
}

pub open spec fn table_rows_spec(
    rows: Seq<Seq<char>>,
    offs: Seq<nat>,
    p: nat,
    st: nat,
    nd: nat,
) -> Result<Seq<RecordText>, Seq<char>>
    decreases rows.len(),
{
    if rows.len() == 0 {
        Ok(Seq::empty())
    } else {
        match table_row_records(rows[0], offs, p, st, nd) {
            Err(m) => Err(m),
            Ok(r) => prepend_records(r, table_rows_spec(rows.drop_first(), offs, p, st, nd)),
        }
    }
}

/// Records of a table whose first line is the header naming the columns.
pub open spec fn header_format_spec(lines: Seq<Seq<char>>) -> Result<Seq<RecordText>, Seq<char>> {
    if lines.len() == 0 {
        Ok(Seq::empty())
    } else {
        let h = lines[0];
        let names = words(h);
        match first_col(names, "PARTITION"@) {
            None => Err("sinfo table header missing PARTITION column"@),
            Some(p) => match first_col(names, "STATE"@) {
                None => Err("sinfo table header missing STATE column"@),
                Some(st) => match first_col(names, "NODELIST"@) {
                    None => Err("sinfo table header missing NODELIST column"@),
                    Some(nd) => table_rows_spec(lines.drop_first(), column_offsets(h), p, st, nd),
                },
            },
        }
    }
}

/// Upper-case version of a text, as Rust's `str::to_uppercase` gives it.
pub uninterp spec fn upper(s: Seq<char>) -> Seq<char>;

/// The upper-case version of a text: on ASCII text the small letters a to
/// z made capital, otherwise `upper`.
pub open spec fn upcase(s: Seq<char>) -> Seq<char> {
    if crate::text::ascii_text(s) {
        crate::text::ascii_upper(s)
    } else {
        upper(s)
    }
}

/// `str::to_uppercase` (full Unicode case mapping); its result is named
/// `upper`; on ASCII text it makes the small letters a to z capital and
/// keeps every other character.
#[verifier::external_body]
fn to_uppercase(s: &[char]) -> (r: Vec<char>)
    ensures
        r@ == upper(s@),
        crate::text::ascii_text(s@) ==> r@ == crate::text::ascii_upper(s@),
{
    let t: String = s.iter().collect();
    t.to_uppercase().chars().collect()
}

pub fn utf8_len_of(c: char) -> (n: usize)
    ensures
        n == utf8_len(c),
        1 <= n <= 4,
{
    let u = c as u32;
    if u < 0x80 {
        1
    } else if u < 0x800 {
        2
    } else if u < 0x10000 {
        3
    } else {
        4
    }
}

pub proof fn lemma_byte_len_bound(s: Seq<char>)
    ensures
        byte_len(s) <= 4 * s.len(),
    decreases s.len(),
{
    if s.len() > 0 {
        lemma_byte_len_bound(s.drop_last());
    }
}

pub proof fn lemma_byte_len_prefix(s: Seq<char>, k: int)
    requires
        0 <= k <= s.len(),
    ensures
        byte_len(s.take(k)) <= byte_len(s),
    decreases s.len(),
{
    if k < s.len() {
        assert(s.drop_last().take(k) =~= s.take(k));
        lemma_byte_len_prefix(s.drop_last(), k);
    } else {
        assert(s.take(k) =~= s);
    }
}

/// `byte_len` of every prefix of `s`: entry `j` is `byte_len(s.take(j))`.
fn prefix_bytes(s: &[char]) -> (r: Vec<usize>)
    requires
        s@.len() <= usize::MAX / 4,
    ensures
        r@.len() == s@.len() + 1,
        forall|j: int| 0 <= j <= s@.len() ==> r@[j] == byte_len(s@.take(j)),
{
    let mut r: Vec<usize> = Vec::new();
    r.push(0);
    assert(s@.take(0) =~= Seq::<char>::empty());
    let mut b: usize = 0;
    let mut i: usize = 0;
    while i < s.len()
        invariant
            i <= s@.len() <= usize::MAX / 4,
            r@.len() == i + 1,
            b == byte_len(s@.take(i as int)),
            b <= 4 * i,
            forall|j: int| 0 <= j <= i ==> r@[j] == byte_len(s@.take(j)),
        decreases s.len() - i,
    {
        assert(s@.take(i + 1).drop_last() =~= s@.take(i as int));
        b = b + utf8_len_of(s[i]);
        r.push(b);
        i = i + 1;
    }
    r
}

/// Number of leading characters that fit in `pos` bytes, given the prefix
/// byte lengths of a text.
fn char_floor_of(s: &[char], pb: &Vec<usize>, pos: usize) -> (k: usize)
    requires
        pb@.len() == s@.len() + 1,
        forall|j: int| 0 <= j <= s@.len() ==> pb@[j] == byte_len(s@.take(j)),
    ensures
        k == char_floor(s@, pos as nat),
        k <= s@.len(),
{
    let mut k: usize = s.len();
    assert(s@.take(k as int) =~= s@);
    while k > 0 && pb[k] > pos
        invariant
            k <= s@.len(),
            pb@.len() == s@.len() + 1,
            forall|j: int| 0 <= j <= s@.len() ==> pb@[j] == byte_len(s@.take(j)),
            char_floor(s@, pos as nat) == char_floor(s@.take(k as int), pos as nat),
        decreases k,
    {
        assert(s@.take(k as int).drop_last() =~= s@.take(k - 1));
        k = k - 1;
    }
    k
}

/// Round `pos` down to the nearest character boundary of `s` (a byte
/// position; positions past the end give the length in bytes).
pub fn nearest_char_boundary(s: &[char], pos: usize) -> (b: usize)
    requires
        s@.len() <= usize::MAX / 4,
    ensures
        b == byte_len(s@.take(char_floor(s@, pos as nat) as int)),
{
    let pb = prefix_bytes(s);
    let k = char_floor_of(s, &pb, pos);
    pb[k]
}

/// The words of a header line with their byte offsets.
pub fn column_spans(header: &[char]) -> (r: (Vec<Vec<char>>, Vec<usize>))
    requires
        header@.len() <= usize::MAX / 4,
    ensures
        vviews(r.0@) == words(header@),
        r.1@.map_values(|x: usize| x as nat) == column_offsets(header@),
        forall|a: int, b: int| 0 <= a < b < r.1@.len() ==> r.1@[a] < r.1@[b],
{
    let names = crate::text::split_whitespace(header);
    let pb = prefix_bytes(header);
    let mut offs: Vec<usize> = Vec::new();
    let mut i: usize = 0;
    assert(header@.take(0) =~= Seq::<char>::empty());
    while i < header.len()
        invariant
            i <= header@.len(),
            pb@.len() == header@.len() + 1,
            forall|j: int| 0 <= j <= header@.len() ==> pb@[j] == byte_len(header@.take(j)),
            offs@.map_values(|x: usize| x as nat) == word_starts(header@.take(i as int)).map_values(
                |k: nat| byte_len(header@.take(k as int)),
            ),
            forall|j: int| 0 <= j < offs@.len() ==> offs@[j] < pb@[i as int] || i == 0,
            i == 0 ==> offs@.len() == 0,
            forall|a: int, b: int| 0 <= a < b < offs@.len() ==> offs@[a] < offs@[b],
        decreases header.len() - i,
    {
        let ghost t = header@.take(i + 1);
        assert(t.drop_last() =~= header@.take(i as int));
        assert(t.last() == header@[i as int]);
        let ghost prev = offs@.map_values(|x: usize| x as nat);
        assert(pb@[i + 1] == pb@[i as int] + utf8_len(header@[i as int]));
        if is_ws_char(header[i]) {
        } else if i >= 1 && !is_ws_char(header[i - 1]) {
            assert(t[t.len() - 2] == header@[i - 1]);
        } else {
            offs.push(pb[i]);
            assert(offs@.map_values(|x: usize| x as nat) =~= prev.push(pb@[i as int] as nat));
        }
        i = i + 1;
    }
    assert(header@.take(i as int) =~= header@);
    (names, offs)
}

/// Split a data row into fields aligned to the byte offsets of the header.
pub fn split_row(line: &[char], offs: &Vec<usize>) -> (r: Vec<Vec<char>>)
    requires
        line@.len() <= usize::MAX / 4,
        forall|a: int, b: int| 0 <= a < b < offs@.len() ==> offs@[a] < offs@[b],
    ensures
        r@.len() == offs@.len(),
        forall|k: int|
            0 <= k < offs@.len() ==> #[trigger] r@[k]@ == row_field(
                line@,
                offs@.map_values(|x: usize| x as nat),
                k,
            ),
{
    let pb = prefix_bytes(line);
    let blen = pb[line.len()];
    assert(line@.take(line@.len() as int) =~= line@);
    let ghost ov = offs@.map_values(|x: usize| x as nat);
    let mut fields: Vec<Vec<char>> = Vec::new();
    let mut k: usize = 0;
    while k < offs.len()
        invariant
            k <= offs@.len(),
            ov == offs@.map_values(|x: usize| x as nat),
            blen == byte_len(line@),
            pb@.len() == line@.len() + 1,
            forall|j: int| 0 <= j <= line@.len() ==> pb@[j] == byte_len(line@.take(j)),
            fields@.len() == k,
            forall|a: int, b: int| 0 <= a < b < offs@.len() ==> offs@[a] < offs@[b],
            forall|j: int| 0 <= j < k ==> #[trigger] fields@[j]@ == row_field(line@, ov, j),
        decreases offs.len() - k,
    {
        let start = if offs[k] <= blen {
            offs[k]
        } else {
            blen
        };
        let end = if k + 1 < offs.len() {
            if offs[k + 1] <= blen {
                offs[k + 1]
            } else {
                blen
            }
        } else {
            blen
        };
        let a = char_floor_of(line, &pb, start);
        let b = char_floor_of(line, &pb, end);
        proof {
            lemma_char_floor_mono(line@, start as nat, end as nat);
        }
        let piece = slice_chars(line, a, b);
        let field = trim_chars(piece.as_slice());
        fields.push(field);
        k = k + 1;
    }
    fields
}

pub proof fn lemma_char_floor_mono(s: Seq<char>, a: nat, b: nat)
    requires
        a <= b,
    ensures
        char_floor(s, a) <= char_floor(s, b),
        char_floor(s, b) <= s.len(),
    decreases s.len(),
{
    if s.len() > 0 {
        lemma_char_floor_mono(s.drop_last(), a, b);
    }
}


/// Index of the first column whose upper-cased name starts with `needle`.
fn find_col(names: &Vec<Vec<char>>, needle: &str) -> (r: Option<usize>)
    ensures
        r matches Some(k) ==> first_col(vviews(names@), needle@) == Some(k as nat),
        r is None ==> first_col(vviews(names@), needle@) is None,
        r matches Some(k) ==> k < names@.len(),
{
    let nd = chars_of(needle);
    let ghost nv = vviews(names@);
    let mut i: usize = 0;
    assert(nv.skip(0) =~= nv);
    while i < names.len()
        invariant
            i <= names.len(),
            nv == vviews(names@),
            nd@ == needle@,
            first_col(nv, needle@) == (match first_col(nv.skip(i as int), needle@) {
                Some(k) => Some((k + i) as nat),
                None => None,
            }),
        decreases names.len() - i,
    {
        assert(nv.skip(i as int)[0] == names@[i as int]@);
        assert(nv.skip(i as int).drop_first() =~= nv.skip(i + 1));
        let up = to_uppercase(names[i].as_slice());
        assert(up@ == upcase(names@[i as int]@));
        if crate::text::starts_with(up.as_slice(), nd.as_slice()) {
            return Some(i);
        }
        i = i + 1;
    }
    None
}

/// Records of a header-driven table (the default `sinfo` output).
pub fn parse_header_format(lines: &Vec<Vec<char>>) -> (r: Result<Vec<NodeInfo>, NodeListParseError>)
    requires
        forall|i: int| 0 <= i < lines@.len() ==> #[trigger] lines@[i]@.len() <= usize::MAX / 4,
    ensures
        match header_format_spec(vviews(lines@)) {
            Ok(recs) => r matches Ok(v) && infos_match(v@, recs),
            Err(m) => r matches Err(e) && e.msg@ == m,
        },
{
    let ghost lv = vviews(lines@);
    if lines.len() == 0 {
        return Ok(Vec::new());
    }
    let (names, offs) = column_spans(lines[0].as_slice());
    let part_col = match find_col(&names, "PARTITION") {
        Some(k) => k,
        None => {
            return Err(error_lit("sinfo table header missing PARTITION column"));
        },
    };
    let state_col = match find_col(&names, "STATE") {
        Some(k) => k,
        None => {
            return Err(error_lit("sinfo table header missing STATE column"));
        },
    };
    let node_col = match find_col(&names, "NODELIST") {
        Some(k) => k,
        None => {
            return Err(error_lit("sinfo table header missing NODELIST column"));
        },
    };
    let ghost ov = offs@.map_values(|x: usize| x as nat);
    let ghost rows = lv.drop_first();
    let mut records: Vec<NodeInfo> = Vec::new();
    let ghost mut acc: Seq<RecordText> = Seq::empty();
    assert(lv.len() > 0 && lv[0] == lines@[0]@);
    assert(ov == column_offsets(lv[0]));
    assert(vviews(names@) == words(lv[0]));
    assert(first_col(words(lv[0]), "PARTITION"@) == Some(part_col as nat));
    assert(first_col(words(lv[0]), "STATE"@) == Some(state_col as nat));
    assert(first_col(words(lv[0]), "NODELIST"@) == Some(node_col as nat));
    assert(header_format_spec(lv) == table_rows_spec(rows, ov, part_col as nat, state_col as nat, node_col as nat));
    let mut i: usize = 1;
    assert(rows.skip(0) =~= rows);
    assert(table_rows_spec(rows, ov, part_col as nat, state_col as nat, node_col as nat) == prepend_records(acc, table_rows_spec(rows.skip(0), ov, part_col as nat, state_col as nat, node_col as nat))) by {
        match table_rows_spec(rows, ov, part_col as nat, state_col as nat, node_col as nat) {
            Ok(x) => {
                assert(acc + x =~= x);
            },
            Err(_) => {},
        }
    }
    while i < lines.len()
        invariant
            1 <= i <= lines.len(),
            lv == vviews(lines@),
            rows == lv.drop_first(),
            ov == offs@.map_values(|x: usize| x as nat),
            forall|a: int, b: int| 0 <= a < b < offs@.len() ==> offs@[a] < offs@[b],
            forall|j: int| 0 <= j < lines@.len() ==> #[trigger] lines@[j]@.len() <= usize::MAX / 4,
            infos_match(records@, acc),
            header_format_spec(lv) == prepend_records(acc, table_rows_spec(rows.skip(i - 1), ov, part_col as nat, state_col as nat, node_col as nat)),
        decreases lines.len() - i,
    {
        let ghost rest = rows.skip(i - 1);
        assert(rest[0] == lines@[i as int]@);
        assert(rest.drop_first() =~= rows.skip(i as int));
        let values = split_row(lines[i].as_slice(), &offs);
        let mx = if node_col >= state_col && node_col >= part_col {
            node_col
        } else if state_col >= part_col {
            state_col
        } else {
            part_col
        };
        if values.len() <= mx {
            proof {
                match table_rows_spec(rows.skip(i as int), ov, part_col as nat, state_col as nat, node_col as nat) {
                    Ok(x) => {
                        assert(Seq::<RecordText>::empty() + x =~= x);
                    },
                    Err(_) => {},
                }
            }
        } else {
            let nodelist = trim_chars(values[node_col].as_slice());
            let st = trim_chars(values[state_col].as_slice());
            match push_records(
                &mut records,
                Ghost(acc),
                nodelist.as_slice(),
                values[part_col].as_slice(),
                st.as_slice(),
            ) {
                Ok(()) => {
                    proof {
                        let recs = table_row_records(lines@[i as int]@, ov, part_col as nat, state_col as nat, node_col as nat)->Ok_0;
                        match table_rows_spec(rows.skip(i as int), ov, part_col as nat, state_col as nat, node_col as nat) {
                            Ok(x) => {
                                assert(acc + (recs + x) =~= acc + recs + x);
                            },
                            Err(_) => {},
                        }
                        acc = acc + recs;
                    }
                },
                Err(e) => {
                    return Err(e);
                },
            }
        }
        i = i + 1;
    }
    assert(rows.skip(i - 1) =~= Seq::<Seq<char>>::empty());
    assert(acc + Seq::<RecordText>::empty() =~= acc);
    Ok(records)
}

/// The non-empty trimmed lines of `raw`.
pub open spec fn sinfo_lines(raw: Seq<char>) -> Seq<Seq<char>> {
    lines_of(raw).map_values(|l: Seq<char>| trim(l)).filter(|l: Seq<char>| l.len() > 0)
}

/// A line that names the `PARTITION`, `STATE` and `NODELIST` columns, in
/// any order (each a word that, upper-cased, starts with the name).
pub open spec fn names_columns(l: Seq<char>) -> bool {
    &&& first_col(words(l), "PARTITION"@) is Some
    &&& first_col(words(l), "STATE"@) is Some
    &&& first_col(words(l), "NODELIST"@) is Some
}

/// Index of the first line that names the three columns.
pub open spec fn header_index(ls: Seq<Seq<char>>) -> Option<nat>
    decreases ls.len(),
{
    if ls.len() == 0 {
        None
    } else if names_columns(ls[0]) {
        Some(0)
    } else {
        match header_index(ls.drop_first()) {
            Some(k) => Some(k + 1),
            None => None,
        }
    }
}

/// Whether line `l` names the three columns.
fn is_header_line(l: &Vec<char>) -> (b: bool)
    ensures
        b == names_columns(l@),
{
    let ws = crate::text::split_whitespace(l.as_slice());
    assert(vviews(ws@) == words(l@));
    find_col(&ws, "PARTITION").is_some() && find_col(&ws, "STATE").is_some() && find_col(&ws, "NODELIST").is_some()
}

/// Index of the first line that names the three columns.
fn find_header(ls: &Vec<Vec<char>>) -> (r: Option<usize>)
    ensures
        r matches Some(k) ==> header_index(vviews(ls@)) == Some(k as nat) && k < ls@.len(),
        r is None ==> header_index(vviews(ls@)) is None,
{
    let ghost lv = vviews(ls@);
    let mut i: usize = 0;
    assert(lv.skip(0) =~= lv);
    while i < ls.len()
        invariant
            i <= ls.len(),
            lv == vviews(ls@),
            header_index(lv) == (match header_index(lv.skip(i as int)) {
                Some(k) => Some((k + i) as nat),
                None => None,
            }),
        decreases ls.len() - i,
    {
        assert(lv.skip(i as int)[0] == ls@[i as int]@);
        assert(lv.skip(i as int).drop_first() =~= lv.skip(i + 1));
        if is_header_line(&ls[i]) {
            return Some(i);
        }
        i = i + 1;
    }
    None
}

/// The records of `sinfo` output: a header-driven table from the first
/// line that names the `PARTITION`, `STATE` and `NODELIST` columns (in any
/// order) on, or `%N %P %t` lines when there is none.
pub open spec fn parse_sinfo_spec(raw: Seq<char>) -> Result<Seq<RecordText>, Seq<char>> {
    let ls = sinfo_lines(raw);
    match header_index(ls) {
        Some(i) => header_format_spec(ls.skip(i as int)),
        None => fixed_format_spec(ls),
    }
}

pub proof fn lemma_split_pieces_len(s: Seq<char>, sep: char)
    ensures
        forall|i: int|
            0 <= i < split_on(s, sep).len() ==> #[trigger] split_on(s, sep)[i].len() <= s.len(),
    decreases s.len(),
{
    if s.len() > 0 {
        lemma_split_pieces_len(s.drop_last(), sep);
        crate::text::lemma_split_on_nonempty(s.drop_last(), sep);
    }
}

pub proof fn lemma_trim_len(s: Seq<char>)
    ensures
        trim(s).len() <= s.len(),
{
    lemma_trim_start_len(s);
    lemma_trim_end_len(crate::text::trim_start(s));
}

pub proof fn lemma_trim_start_len(s: Seq<char>)
    ensures
        crate::text::trim_start(s).len() <= s.len(),
    decreases s.len(),
{
    if s.len() > 0 && is_ws(s[0]) {
        lemma_trim_start_len(s.drop_first());
    }
}

pub proof fn lemma_trim_end_len(s: Seq<char>)
    ensures
        crate::text::trim_end(s).len() <= s.len(),
    decreases s.len(),
{
    if s.len() > 0 && is_ws(s.last()) {
        lemma_trim_end_len(s.drop_last());
    }
}

/// Parse the raw sinfo text; the format is detected from the presence of a
/// header line naming the `PARTITION`, `STATE` and `NODELIST` columns.
pub fn parse_sinfo_output(raw: &str) -> (r: Result<Vec<NodeInfo>, NodeListParseError>)
    requires
        raw@.len() <= usize::MAX / 4,
    ensures
        match parse_sinfo_spec(raw@) {
            Ok(recs) => r matches Ok(v) && infos_match(v@, recs),
            Err(m) => r matches Err(e) && e.msg@ == m,
        },
{
    let chars = chars_of(raw);
    let all = lines(chars.as_slice());
    let ghost av = vviews(all@);
    let ghost pred = |l: Seq<char>| l.len() > 0;
    let ghost tv = av.map_values(|l: Seq<char>| trim(l));
    proof {
        lemma_split_pieces_len(raw@, '\n');
        crate::text::lemma_split_on_nonempty(raw@, '\n');
    }
    let mut ls: Vec<Vec<char>> = Vec::new();
    let mut i: usize = 0;
    assert(tv.take(0) =~= Seq::<Seq<char>>::empty());
    proof {
        reveal(Seq::filter);
    }
    while i < all.len()
        invariant
            i <= all.len(),
            av == vviews(all@),
            tv == av.map_values(|l: Seq<char>| trim(l)),
            av == lines_of(raw@),
            pred == (|l: Seq<char>| l.len() > 0),
            raw@.len() <= usize::MAX / 4,
            forall|j: int| 0 <= j < av.len() ==> #[trigger] av[j].len() <= raw@.len(),
            vviews(ls@) == tv.take(i as int).filter(pred),
            forall|j: int| 0 <= j < ls@.len() ==> #[trigger] ls@[j]@.len() <= usize::MAX / 4,
        decreases all.len() - i,
    {
        let t = trim_chars(all[i].as_slice());
        proof {
            lemma_trim_len(av[i as int]);
            assert(tv.take(i + 1).drop_last() =~= tv.take(i as int));
            assert(av[i as int] == all@[i as int]@);
            assert(tv.take(i + 1).last() == t@);
            assert(pred(t@) == (t@.len() > 0));
            reveal(Seq::filter);
        }
        let ghost prev = vviews(ls@);
        if t.len() > 0 {
            ls.push(t);
            assert(vviews(ls@) =~= prev.push(t@));
        }
        i = i + 1;
    }
    assert(tv.take(i as int) =~= tv);
    assert(pred =~= (|l: Seq<char>| l.len() > 0));
    assert(vviews(ls@) == sinfo_lines(raw@));
    match find_header(&ls) {
        Some(idx) => {
            let mut rest: Vec<Vec<char>> = Vec::new();
            let mut j: usize = idx;
            while j < ls.len()
                invariant
                    idx <= j <= ls.len(),
                    vviews(rest@) =~= vviews(ls@).subrange(idx as int, j as int),
                    forall|q: int| 0 <= q < ls@.len() ==> #[trigger] ls@[q]@.len() <= usize::MAX / 4,
                    forall|q: int| 0 <= q < rest@.len() ==> #[trigger] rest@[q]@.len() <= usize::MAX / 4,
                decreases ls.len() - j,
            {
                let ghost prev = vviews(rest@);
                let c = crate::nodelist::copy_chars(&ls[j]);
                rest.push(c);
                assert(vviews(rest@) =~= prev.push(c@));
                j = j + 1;
            }
            assert(vviews(ls@).subrange(idx as int, j as int) =~= vviews(ls@).skip(idx as int));
            parse_header_format(&rest)
        },
        None => parse_fixed_format(&ls),
    }
}


/// Some entry of `r` has key `h`.
pub open spec fn has_key<V>(r: Seq<(String, V)>, h: Seq<char>) -> bool {
    exists|k: int| 0 <= k < r.len() && #[trigger] r[k].0@ == h
}

/// The records of host `h`, in order.
pub open spec fn records_of_host(infos: Seq<NodeInfo>, h: Seq<char>) -> Seq<NodeInfo> {
    infos.filter(|i: NodeInfo| i.hostname@ == h)
}

/// Group records by host name (a node can appear in several partitions):
/// one entry per host, in order of first appearance, holding that host's
/// records in order.
pub fn index_by_hostname(infos: Vec<NodeInfo>) -> (r: Vec<(String, Vec<NodeInfo>)>)
    ensures
        forall|a: int, b: int| 0 <= a < b < r@.len() ==> r@[a].0@ != r@[b].0@,
        forall|k: int|
            0 <= k < r@.len() ==> #[trigger] r@[k].1@ == records_of_host(infos@, r@[k].0@),
        forall|i: int| 0 <= i < infos@.len() ==> has_key(r@, #[trigger] infos@[i].hostname@),
        forall|k: int| 0 <= k < r@.len() ==> #[trigger] r@[k].1@.len() > 0,
{
    let mut map: Vec<(String, Vec<NodeInfo>)> = Vec::new();
    let ghost mut key_idx: Seq<int> = Seq::empty();
    let mut i: usize = 0;
    while i < infos.len()
        invariant
            i <= infos@.len(),
            forall|a: int, b: int| 0 <= a < b < map@.len() ==> map@[a].0@ != map@[b].0@,
            forall|k: int|
                0 <= k < map@.len() ==> #[trigger] map@[k].1@ == records_of_host(
                    infos@.take(i as int),
                    map@[k].0@,
                ),
            key_idx.len() == i,
            forall|k: int| 0 <= k < map@.len() ==> #[trigger] map@[k].1@.len() > 0,
            forall|j: int|
                0 <= j < i ==> 0 <= #[trigger] key_idx[j] < map@.len() && map@[key_idx[j]].0@
                    == infos@[j].hostname@,
        decreases infos.len() - i,
    {
        let info = infos[i].copy();
        let ghost t = infos@.take(i + 1);
        assert(t.drop_last() =~= infos@.take(i as int));
        assert(t.last() == info);
        proof {
            reveal(Seq::filter);
        }
        let mut pos: usize = 0;
        let mut found = false;
        while pos < map.len() && !found
            invariant
                pos <= map@.len(),
                found ==> pos < map@.len() && map@[pos as int].0@ == info.hostname@,
                !found ==> forall|q: int| 0 <= q < pos ==> map@[q].0@ != info.hostname@,
            decreases map.len() - pos, if found {
                0int
            } else {
                1int
            },
        {
            if map[pos].0 == info.hostname {
                found = true;
            } else {
                pos = pos + 1;
            }
        }
        let ghost old_map = map@;
        if found {
            let mut entry = map.remove(pos);
            entry.1.push(info);
            map.insert(pos, entry);
            proof {
                assert forall|k: int| 0 <= k < map@.len() implies #[trigger] map@[k].1@
                    == records_of_host(t, map@[k].0@) by {
                    assert(records_of_host(t, map@[k].0@) == (if info.hostname@ == map@[k].0@ {
                        records_of_host(infos@.take(i as int), map@[k].0@).push(info)
                    } else {
                        records_of_host(infos@.take(i as int), map@[k].0@)
                    }));
                    if k != pos {
                        assert(map@[k] == old_map[k]);
                    }
                }
                assert forall|j: int| 0 <= j < i implies map@[key_idx[j]].0@
                    == infos@[j].hostname@ by {
                    assert(map@[key_idx[j]].0@ == old_map[key_idx[j]].0@);
                }
                key_idx = key_idx.push(pos as int);
            }
        } else {
            let name = info.hostname.clone();
            let mut group: Vec<NodeInfo> = Vec::new();
            group.push(info);
            map.push((name, group));
            proof {
                assert forall|k: int| 0 <= k < map@.len() implies #[trigger] map@[k].1@
                    == records_of_host(t, map@[k].0@) by {
                    assert(records_of_host(t, map@[k].0@) == (if info.hostname@ == map@[k].0@ {
                        records_of_host(infos@.take(i as int), map@[k].0@).push(info)
                    } else {
                        records_of_host(infos@.take(i as int), map@[k].0@)
                    }));
                    if k < old_map.len() {
                        assert(map@[k] == old_map[k]);
                    } else {
                        assert forall|j: int| 0 <= j < i implies infos@.take(i as int)[j].hostname@
                            != info.hostname@ by {
                            assert(old_map[key_idx[j]].0@ == infos@[j].hostname@);
                        }
                        lemma_no_records(infos@.take(i as int), info.hostname@);
                        assert(group@ =~= seq![info]);
                        assert(Seq::<NodeInfo>::empty().push(info) =~= seq![info]);
                    }
                }
                assert forall|j: int| 0 <= j < i implies map@[key_idx[j]].0@
                    == infos@[j].hostname@ by {
                    assert(map@[key_idx[j]] == old_map[key_idx[j]]);
                }
                key_idx = key_idx.push(old_map.len() as int);
            }
        }
        i = i + 1;
    }
    assert(infos@.take(i as int) =~= infos@);
    assert forall|k: int| 0 <= k < map@.len() implies #[trigger] map@[k].1@ == records_of_host(
        infos@,
        map@[k].0@,
    ) by {
        assert(map@[k].1@ == records_of_host(infos@.take(i as int), map@[k].0@));
    }
    assert forall|j: int| 0 <= j < infos@.len() implies has_key(
        map@,
        #[trigger] infos@[j].hostname@,
    ) by {
        assert(0 <= key_idx[j] < map@.len() && map@[key_idx[j]].0@ == infos@[j].hostname@);
    }
    map
}

/// A host that no record names has no records.
pub proof fn lemma_no_records(infos: Seq<NodeInfo>, h: Seq<char>)
    requires
        forall|j: int| 0 <= j < infos.len() ==> infos[j].hostname@ != h,
    ensures
        records_of_host(infos, h) == Seq::<NodeInfo>::empty(),
    decreases infos.len(),
{
    reveal(Seq::filter);
    if infos.len() > 0 {
        lemma_no_records(infos.drop_last(), h);
    }
}

} // verus!
