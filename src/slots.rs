//! The descriptor assignment table: the slot that each of the six descriptors
//! of a link takes in the child, and the argument list that tells the child
//! where they are.
use vstd::prelude::*;

verus! {

/// Slots below this one are the child's standard input, output and error.
pub const FIRST_FREE_SLOT: i32 = 3;

/// The slots of the conventional layout start here.
pub const CONVENTIONAL_BASE: i32 = 3;

/// Why a set of slots is no table.
#[derive(PartialEq, Eq, Structural, Clone, Copy, Debug)]
pub enum SlotError {
    /// The slot is a standard stream's, or negative.
    Reserved(i32),
    /// The slot is named twice.
    Duplicate(i32),
}

/// Six slots in this order: initiator-to-peer send signal, acknowledgement
/// signal and memory; then the same three of peer-to-initiator.
pub open spec fn valid_slots(s: Seq<i32>) -> bool {
    &&& s.len() == 6
    &&& forall|i: int| 0 <= i < 6 ==> s[i] >= FIRST_FREE_SLOT
    &&& forall|i: int, j: int| 0 <= i < j < 6 ==> s[i] != s[j]
}

/// `v` stands at two places of `s`.
pub open spec fn named_twice(s: Seq<i32>, v: i32) -> bool {
    exists|i: int, j: int| 0 <= i < j < s.len() && s[i] == v && s[j] == v
}

/// The text of a natural number in decimal digits.
pub open spec fn decimal(n: nat) -> Seq<char>
    decreases n,
{
    if n < 10 {
        seq![digit(n)]
    } else {
        decimal(n / 10).push(digit(n % 10))
    }
}

pub open spec fn digit(d: nat) -> char {
    ((d + 48) as u8) as char
}

/// The argument list that starts the child in its role, with each slot and
/// the region size after its flag.
pub open spec fn child_arguments(s: Seq<i32>, shm_size: nat) -> Seq<Seq<char>> {
    seq![
        "-mode"@, "child"@,
        "-fd-p2c-send"@, decimal(s[0] as nat),
        "-fd-p2c-ack"@, decimal(s[1] as nat),
        "-fd-p2c-shm"@, decimal(s[2] as nat),
        "-fd-c2p-send"@, decimal(s[3] as nat),
        "-fd-c2p-ack"@, decimal(s[4] as nat),
        "-fd-c2p-shm"@, decimal(s[5] as nat),
        "-shm-size"@, decimal(shm_size),
    ]
}

/// Relies on std's `Display` for `u64`: the number in decimal digits, no sign,
/// no leading zeros.
#[verifier::external_body]
fn decimal_text(n: u64) -> (r: String)
    ensures
        r@ == decimal(n as nat),
{
    format!("{}", n)
}

/// Six distinct slots, none of them a standard stream's.
pub struct SlotTable {
    slots: [i32; 6],
}

impl View for SlotTable {
    type V = Seq<i32>;

    closed spec fn view(&self) -> Seq<i32> {
        self.slots@
    }
}

impl SlotTable {
    pub closed spec fn wf(&self) -> bool {
        valid_slots(self.slots@)
    }

    /// The conventional layout: the six slots from the first free one up.
    pub fn conventional() -> (r: SlotTable)
        ensures
            r.wf(),
            r@ == seq![3i32, 4, 5, 6, 7, 8],
    {
        let b = CONVENTIONAL_BASE;
        let t = SlotTable { slots: [b, b + 1, b + 2, b + 3, b + 4, b + 5] };
        assert(t.slots@ =~= seq![3i32, 4, 5, 6, 7, 8]);
        t
    }

    /// A table of the given slots, where they are distinct and none is a
    /// standard stream's.
    pub fn new(
        p2c_send: i32,
        p2c_ack: i32,
        p2c_shm: i32,
        c2p_send: i32,
        c2p_ack: i32,
        c2p_shm: i32,
    ) -> (r: Result<SlotTable, SlotError>)
        ensures
            r is Ok <==> valid_slots(seq![p2c_send, p2c_ack, p2c_shm, c2p_send, c2p_ack, c2p_shm]),
            match r {
                Ok(t) => t.wf() && t@ == seq![p2c_send, p2c_ack, p2c_shm, c2p_send, c2p_ack, c2p_shm],
                Err(SlotError::Reserved(s)) => s < FIRST_FREE_SLOT && seq![
                    p2c_send,
                    p2c_ack,
                    p2c_shm,
                    c2p_send,
                    c2p_ack,
                    c2p_shm,
                ].contains(s),
                Err(SlotError::Duplicate(s)) => {
                    &&& named_twice(seq![p2c_send, p2c_ack, p2c_shm, c2p_send, c2p_ack, c2p_shm], s)
                    &&& s >= FIRST_FREE_SLOT
                },
            },
    {
        let slots: [i32; 6] = [p2c_send, p2c_ack, p2c_shm, c2p_send, c2p_ack, c2p_shm];
        let ghost s = seq![p2c_send, p2c_ack, p2c_shm, c2p_send, c2p_ack, c2p_shm];
        assert(slots@ =~= s);
        let mut i: usize = 0;
        while i < 6
            invariant
                slots@ == s,
                s == seq![p2c_send, p2c_ack, p2c_shm, c2p_send, c2p_ack, c2p_shm],
                i <= 6,
                forall|k: int| 0 <= k < i ==> s[k] >= FIRST_FREE_SLOT,
                forall|k: int, m: int| 0 <= k < m < i ==> s[k] != s[m],
            decreases 6 - i,
        {
            if slots[i] < FIRST_FREE_SLOT {
                return Err(SlotError::Reserved(slots[i]));
            }
            let mut j: usize = 0;
            while j < i
                invariant
                    slots@ == s,
                    s == seq![p2c_send, p2c_ack, p2c_shm, c2p_send, c2p_ack, c2p_shm],
                    forall|k: int| 0 <= k <= i ==> s[k] >= FIRST_FREE_SLOT,
                    j <= i < 6,
                    forall|k: int| 0 <= k < j ==> s[k] != s[i as int],
                decreases i - j,
            {
                if slots[j] == slots[i] {
                    assert(s[j as int] == slots[i as int] && s[i as int] == slots[i as int]);
                    return Err(SlotError::Duplicate(slots[i]));
                }
                j = j + 1;
            }
            i = i + 1;
        }
        Ok(SlotTable { slots })
    }

    /// The six slots, in the table's order.
    pub fn slots(&self) -> (r: [i32; 6])
        ensures
            r@ == self@,
    {
        self.slots
    }

    /// The argument list for the child of a link whose regions hold
    /// `shm_size` bytes each.
    pub fn child_args(&self, shm_size: usize) -> (r: Vec<String>)
        requires
            self.wf(),
        ensures
            r@.len() == 16,
            forall|i: int| 0 <= i < 16 ==> #[trigger] r@[i]@ == child_arguments(self@, shm_size as nat)[i],
    {
        let mut r: Vec<String> = Vec::new();
        r.push("-mode".to_owned());
        r.push("child".to_owned());
        r.push("-fd-p2c-send".to_owned());
        r.push(decimal_text(self.slots[0] as u64));
        r.push("-fd-p2c-ack".to_owned());
        r.push(decimal_text(self.slots[1] as u64));
        r.push("-fd-p2c-shm".to_owned());
        r.push(decimal_text(self.slots[2] as u64));
        r.push("-fd-c2p-send".to_owned());
        r.push(decimal_text(self.slots[3] as u64));
        r.push("-fd-c2p-ack".to_owned());
        r.push(decimal_text(self.slots[4] as u64));
        r.push("-fd-c2p-shm".to_owned());
        r.push(decimal_text(self.slots[5] as u64));
        r.push("-shm-size".to_owned());
        r.push(decimal_text(shm_size as u64));
        r
    }
}

/// A process's descriptor table after `dup2(source, target)`: the target slot
/// refers to the object that the source slot refers to.
pub open spec fn after_dup(table: Map<i32, int>, source: i32, target: i32) -> Map<i32, int> {
    table.insert(target, table[source])
}

/// A descriptor table after each step, `(source, target)`, in turn.
pub open spec fn after_steps(table: Map<i32, int>, steps: Seq<(i32, i32)>) -> Map<i32, int>
    decreases steps.len(),
{
    if steps.len() == 0 {
        table
    } else {
        after_dup(after_steps(table, steps.drop_last()), steps.last().0, steps.last().1)
    }
}

/// Some step writes slot `s`.
pub open spec fn writes(steps: Seq<(i32, i32)>, s: i32) -> bool {
    exists|k: int| 0 <= k < steps.len() && steps[k].1 == s
}

/// No step reads a slot that an earlier step has changed (a step from a slot
/// to itself changes nothing).
pub open spec fn reads_no_overwritten_slot(steps: Seq<(i32, i32)>) -> bool {
    forall|i: int, j: int|
        0 <= i < j < steps.len() && steps[i].0 != steps[i].1 ==> steps[j].0 != steps[i].1
}

pub open spec fn distinct_targets(steps: Seq<(i32, i32)>) -> bool {
    forall|i: int, j: int| 0 <= i < j < steps.len() ==> steps[i].1 != steps[j].1
}

/// The steps that move each source descriptor to its slot, in table order.
pub open spec fn placement(sources: Seq<i32>, slots: Seq<i32>) -> Seq<(i32, i32)> {
    Seq::new(6, |k: int| (sources[k], slots[k]))
}

proof fn lemma_after_steps(table: Map<i32, int>, steps: Seq<(i32, i32)>)
    requires
        reads_no_overwritten_slot(steps),
        distinct_targets(steps),
        forall|k: int| 0 <= k < steps.len() ==> table.contains_key(#[trigger] steps[k].0),
    ensures
        forall|k: int|
            0 <= k < steps.len() ==> after_steps(table, steps).contains_key(#[trigger] steps[k].1)
                && after_steps(table, steps)[steps[k].1] == table[steps[k].0],
        forall|s: i32|
            #![trigger after_steps(table, steps).contains_key(s)]
            #![trigger after_steps(table, steps)[s]]
            table.contains_key(s) && !writes(steps, s) ==> after_steps(table, steps).contains_key(s)
                && after_steps(table, steps)[s] == table[s],
    decreases steps.len(),
{
    if steps.len() > 0 {
        let prev = steps.drop_last();
        let n = steps.len() - 1;
        assert forall|k: int| 0 <= k < prev.len() implies prev[k] == steps[k] by {}
        lemma_after_steps(table, prev);
        let mid = after_steps(table, prev);
        let src = steps[n].0;
        let tgt = steps[n].1;
        assert(after_steps(table, steps) == after_dup(mid, src, tgt));
        assert(table.contains_key(steps[n].0));
        assert(mid.contains_key(src) && mid[src] == table[src]) by {
            if writes(prev, src) {
                let i = choose|i: int| 0 <= i < prev.len() && prev[i].1 == src;
                assert(prev[i] == steps[i]);
                assert(steps[i].0 == steps[i].1);
                assert(mid.contains_key(prev[i].1) && mid[prev[i].1] == table[prev[i].0]);
            } else {
                assert(mid[src] == table[src]);
            }
        }
        assert forall|k: int| 0 <= k < steps.len() implies after_steps(table, steps).contains_key(
            #[trigger] steps[k].1,
        ) && after_steps(table, steps)[steps[k].1] == table[steps[k].0] by {
            if k < n {
                assert(prev[k] == steps[k]);
            }
        }
        assert forall|s: i32|
            #![trigger after_steps(table, steps).contains_key(s)]
            #![trigger after_steps(table, steps)[s]]
            table.contains_key(s) && !writes(steps, s) implies after_steps(table, steps).contains_key(s)
                && after_steps(table, steps)[s] == table[s] by {
            assert(steps[n].1 != s);
            if writes(prev, s) {
                let i = choose|i: int| 0 <= i < prev.len() && prev[i].1 == s;
                assert(prev[i] == steps[i]);
                assert(steps[i].1 == s);
            }
            assert(mid.contains_key(s) && mid[s] == table[s]);
        }
    } else {
        assert(after_steps(table, steps) == table);
    }
}

/// After the steps of a placement that reads no overwritten slot, each slot of
/// a valid table refers to the object of its source descriptor.
pub proof fn lemma_placement_places_each_descriptor(
    table: Map<i32, int>,
    sources: Seq<i32>,
    slots: Seq<i32>,
)
    requires
        sources.len() == 6,
        valid_slots(slots),
        reads_no_overwritten_slot(placement(sources, slots)),
        forall|k: int| 0 <= k < 6 ==> table.contains_key(#[trigger] sources[k]),
    ensures
        forall|k: int|
            0 <= k < 6 ==> #[trigger] after_steps(table, placement(sources, slots))[slots[k]]
                == table[sources[k]],
{
    let steps = placement(sources, slots);
    assert forall|k: int| 0 <= k < steps.len() implies table.contains_key(#[trigger] steps[k].0) by {
        assert(steps[k].0 == sources[k]);
    }
    lemma_after_steps(table, steps);
    assert forall|k: int| 0 <= k < 6 implies #[trigger] after_steps(table, steps)[slots[k]]
        == table[sources[k]] by {
        assert(steps[k].1 == slots[k]);
    }
}

impl SlotTable {
    /// The `dup2` steps that put `sources` (the descriptors in this process,
    /// in table order) at the table's slots; `None` where a step would read a
    /// slot that an earlier step has already overwritten.
    pub fn placement(&self, sources: [i32; 6]) -> (r: Option<Vec<(i32, i32)>>)
        requires
            self.wf(),
        ensures
            match r {
                Some(v) => {
                    &&& v@ == placement(sources@, self@)
                    &&& reads_no_overwritten_slot(v@)
                    &&& distinct_targets(v@)
                },
                None => !reads_no_overwritten_slot(placement(sources@, self@)),
            },
    {
        let ghost want = placement(sources@, self@);
        let mut steps: Vec<(i32, i32)> = Vec::new();
        let mut j: usize = 0;
        while j < 6
            invariant
                self.wf(),
                want == placement(sources@, self@),
                j <= 6,
                steps@ == want.subrange(0, j as int),
                reads_no_overwritten_slot(steps@),
            decreases 6 - j,
        {
            let mut i: usize = 0;
            while i < j
                invariant
                    want == placement(sources@, self@),
                    i <= j < 6,
                    forall|k: int|
                        0 <= k < i && #[trigger] want[k].0 != want[k].1 ==> want[j as int].0
                            != want[k].1,
                decreases j - i,
            {
                if self.slots[i] != sources[i] && sources[j] == self.slots[i] {
                    assert(want[i as int].0 != want[i as int].1 && want[j as int].0 == want[i as int].1);
                    return None;
                }
                i = i + 1;
            }
            steps.push((sources[j], self.slots[j]));
            j = j + 1;
            assert(steps@ =~= want.subrange(0, j as int));
        }
        assert(steps@ =~= want);
        Some(steps)
    }
}

/// One or more decimal digits.
pub open spec fn numeral(s: Seq<char>) -> bool {
    &&& s.len() > 0
    &&& forall|i: int| 0 <= i < s.len() ==> '0' <= #[trigger] s[i] <= '9'
}

/// The number that a run of decimal digits spells.
pub open spec fn numeral_value(s: Seq<char>) -> nat
    decreases s.len(),
{
    if s.len() == 0 {
        0
    } else {
        numeral_value(s.drop_last()) * 10 + ((s.last() as u32) - 48) as nat
    }
}

proof fn lemma_numeral_value_grows(s: Seq<char>, i: int)
    requires
        0 <= i <= s.len(),
        forall|k: int| 0 <= k < s.len() ==> '0' <= #[trigger] s[k] <= '9',
    ensures
        numeral_value(s.take(i)) <= numeral_value(s),
    decreases s.len(),
{
    if i < s.len() {
        let p = s.drop_last();
        assert(p.take(i) =~= s.take(i));
        assert forall|k: int| 0 <= k < p.len() implies '0' <= #[trigger] p[k] <= '9' by {
            assert(p[k] == s[k]);
        }
        lemma_numeral_value_grows(p, i);
    } else {
        assert(s.take(i) =~= s);
    }
}

/// The number that `text` spells in decimal digits, where it spells one no
/// greater than `max`.
pub fn parse_numeral(text: &str, max: u64) -> (r: Option<u64>)
    ensures
        r == (if numeral(text@) && numeral_value(text@) <= max {
            Some(numeral_value(text@) as u64)
        } else {
            None::<u64>
        }),
{
    if !text.is_ascii() {
        proof {
            if numeral(text@) {
                assert(vstd::utf8::is_ascii_chars(text@));
            }
        }
        return None;
    }
    let bytes = text.as_bytes();
    proof {
        vstd::string::is_ascii_spec_bytes(text);
    }
    let n = bytes.len();
    if n == 0 {
        return None;
    }
    let mut acc: u64 = 0;
    let mut i: usize = 0;
    while i < n
        invariant
            n == text@.len(),
            bytes@ == Seq::new(text@.len(), |k: int| text@[k] as u8),
            vstd::utf8::is_ascii_chars(text@),
            i <= n,
            forall|k: int| 0 <= k < i ==> '0' <= #[trigger] text@[k] <= '9',
            acc == numeral_value(text@.take(i as int)),
            acc <= max,
        decreases n - i,
    {
        let b = bytes[i];
        assert(b == text@[i as int] as u8);
        assert('\0' <= text@[i as int] <= '\u{7f}');
        if b < 48 || b > 57 {
            assert(!('0' <= text@[i as int] <= '9'));
            return None;
        }
        assert(text@.take(i as int + 1).drop_last() =~= text@.take(i as int));
        assert(text@.take(i as int + 1).last() == text@[i as int]);
        let next: u128 = acc as u128 * 10 + (b - 48) as u128;
        if next > max as u128 {
            proof {
                if numeral(text@) {
                    lemma_numeral_value_grows(text@, i as int + 1);
                }
            }
            return None;
        }
        acc = next as u64;
        i = i + 1;
    }
    assert(text@.take(n as int) =~= text@);
    Some(acc)
}

proof fn lemma_decimal_is_numeral(n: nat)
    ensures
        numeral(decimal(n)),
        numeral_value(decimal(n)) == n,
    decreases n,
{
    let d = decimal(n);
    if n < 10 {
        assert(d.drop_last() =~= Seq::<char>::empty());
        assert(d.last() == digit(n));
        assert(digit(n) as u32 == n + 48);
        assert(numeral_value(Seq::<char>::empty()) == 0);
    } else {
        lemma_decimal_is_numeral(n / 10);
        let p = decimal(n / 10);
        assert(d.drop_last() =~= p);
        assert(digit(n % 10) as u32 == n % 10 + 48);
        assert(d.last() == digit(n % 10));
        assert((n / 10) * 10 + n % 10 == n) by (nonlinear_arith);
        assert forall|i: int| 0 <= i < d.len() implies '0' <= #[trigger] d[i] <= '9' by {
            if i < p.len() {
                assert(d[i] == p[i]);
            }
        }
    }
}

/// The flag before the `k`-th slot of a table in an argument list.
pub open spec fn slot_flag(k: int) -> Seq<char> {
    if k == 0 {
        "-fd-p2c-send"@
    } else if k == 1 {
        "-fd-p2c-ack"@
    } else if k == 2 {
        "-fd-p2c-shm"@
    } else if k == 3 {
        "-fd-c2p-send"@
    } else if k == 4 {
        "-fd-c2p-ack"@
    } else {
        "-fd-c2p-shm"@
    }
}

/// The `k`-th flag of `args` is the `k`-th slot's, and the number after it is `v`.
pub open spec fn names_slot(args: Seq<Seq<char>>, k: int, v: int) -> bool {
    &&& args[2 + 2 * k] == slot_flag(k)
    &&& numeral(args[3 + 2 * k])
    &&& numeral_value(args[3 + 2 * k]) == v
}

/// `args` is an argument list that starts a child in its role and names each
/// of `slots`, and the region size `shm_size`, after its flag.
pub open spec fn names(args: Seq<Seq<char>>, slots: Seq<i32>, shm_size: nat) -> bool {
    &&& args.len() == 16
    &&& slots.len() == 6
    &&& args[0] == "-mode"@
    &&& args[1] == "child"@
    &&& names_slot(args, 0, slots[0] as int)
    &&& names_slot(args, 1, slots[1] as int)
    &&& names_slot(args, 2, slots[2] as int)
    &&& names_slot(args, 3, slots[3] as int)
    &&& names_slot(args, 4, slots[4] as int)
    &&& names_slot(args, 5, slots[5] as int)
    &&& args[14] == "-shm-size"@
    &&& numeral(args[15])
    &&& numeral_value(args[15]) == shm_size
}

pub open spec fn texts(args: Seq<String>) -> Seq<Seq<char>> {
    args.map_values(|s: String| s@)
}

/// The list that a parent writes names its table and size, and nothing else:
/// a child that reads it back finds exactly the parent's slots and size.
pub proof fn lemma_child_reads_back(slots: Seq<i32>, shm_size: nat, read: Seq<i32>, read_size: nat)
    requires
        valid_slots(slots),
    ensures
        names(child_arguments(slots, shm_size), slots, shm_size),
        names(child_arguments(slots, shm_size), read, read_size) ==> read == slots && read_size
            == shm_size,
{
    let args = child_arguments(slots, shm_size);
    lemma_decimal_is_numeral(slots[0] as nat);
    lemma_decimal_is_numeral(slots[1] as nat);
    lemma_decimal_is_numeral(slots[2] as nat);
    lemma_decimal_is_numeral(slots[3] as nat);
    lemma_decimal_is_numeral(slots[4] as nat);
    lemma_decimal_is_numeral(slots[5] as nat);
    lemma_decimal_is_numeral(shm_size);
    if names(args, read, read_size) {
        assert(read =~= slots);
    }
}

fn text_is(s: &String, lit: &str) -> (r: bool)
    ensures
        r == (s@ == lit@),
{
    let l = lit.to_owned();
    *s == l
}

fn flag_text(k: usize) -> (r: &'static str)
    requires
        k < 6,
    ensures
        r@ == slot_flag(k as int),
{
    if k == 0 {
        "-fd-p2c-send"
    } else if k == 1 {
        "-fd-p2c-ack"
    } else if k == 2 {
        "-fd-p2c-shm"
    } else if k == 3 {
        "-fd-c2p-send"
    } else if k == 4 {
        "-fd-c2p-ack"
    } else {
        "-fd-c2p-shm"
    }
}

fn read_slot(args: &[String], k: usize) -> (r: Option<i32>)
    requires
        args@.len() == 16,
        k < 6,
    ensures
        match r {
            Some(v) => names_slot(texts(args@), k as int, v as int),
            None => forall|v: i32| !names_slot(texts(args@), k as int, v as int),
        },
{
    let ghost a = texts(args@);
    assert(a[2 + 2 * k as int] == args@[2 + 2 * k as int]@);
    assert(a[3 + 2 * k as int] == args@[3 + 2 * k as int]@);
    if !text_is(&args[2 + 2 * k], flag_text(k)) {
        return None;
    }
    match parse_numeral(args[3 + 2 * k].as_str(), 0x7fff_ffff) {
        Some(v) => Some(v as i32),
        None => None,
    }
}

/// Reads the table and region size back from an argument list that a parent
/// wrote for its child; `None` where the list names no valid table.
pub fn parse_child_args(args: &[String]) -> (r: Option<(SlotTable, usize)>)
    ensures
        match r {
            Some((t, n)) => t.wf() && names(texts(args@), t@, n as nat),
            None => forall|s: Seq<i32>, n: nat|
                valid_slots(s) && n <= usize::MAX ==> !#[trigger] names(texts(args@), s, n),
        },
{
    let ghost a = texts(args@);
    if args.len() != 16 {
        return None;
    }
    assert(a[0] == args@[0]@ && a[1] == args@[1]@ && a[14] == args@[14]@ && a[15] == args@[15]@);
    if !text_is(&args[0], "-mode") || !text_is(&args[1], "child") || !text_is(&args[14], "-shm-size") {
        return None;
    }
    let p2c_send = match read_slot(args, 0) { Some(v) => v, None => return None };
    let p2c_ack = match read_slot(args, 1) { Some(v) => v, None => return None };
    let p2c_shm = match read_slot(args, 2) { Some(v) => v, None => return None };
    let c2p_send = match read_slot(args, 3) { Some(v) => v, None => return None };
    let c2p_ack = match read_slot(args, 4) { Some(v) => v, None => return None };
    let c2p_shm = match read_slot(args, 5) { Some(v) => v, None => return None };
    let size = match parse_numeral(args[15].as_str(), usize::MAX as u64) {
        Some(v) => v as usize,
        None => return None,
    };
    let ghost s = seq![p2c_send, p2c_ack, p2c_shm, c2p_send, c2p_ack, c2p_shm];
    match SlotTable::new(p2c_send, p2c_ack, p2c_shm, c2p_send, c2p_ack, c2p_shm) {
        Ok(t) => Some((t, size)),
        Err(_) => {
            assert forall|s2: Seq<i32>, n: nat|
                valid_slots(s2) && n <= usize::MAX implies !#[trigger] names(a, s2, n) by {
                if names(a, s2, n) {
                    assert(s2 =~= s);
                }
            }
            None
        },
    }
}

} // verus!
