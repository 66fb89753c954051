//! A decoder for a bit-level packet transmission format.
//!
//! A transmission is a sequence of bits (stored here as a `Vec<u8>` whose
//! elements are all `0` or `1`).  Every packet starts with a three-bit
//! version and a three-bit type id.  Type id `4` marks a literal packet,
//! whose value follows in five-bit groups (a continuation bit and four
//! value bits).  Every other type id marks an operator packet, which
//! carries sub-packets: after a one-bit length-type flag come either a
//! fifteen-bit total bit length of the sub-packets, or an eleven-bit count
//! of them.  Operator packets compute sums, products, minima, maxima and
//! comparisons over their sub-packets.

use vstd::prelude::*;

verus! {

use vstd::arithmetic::power2::pow2;

/// Payload of a packet: either a literal value, or an operator
/// (identified by its type id) over sub-packets.
#[derive(Debug)]
pub enum Content {
    Literal(u64),
    Operator(u8, Vec<Packet>),
}

/// A decoded packet: a version number and its content.
#[derive(Debug)]
pub struct Packet {
    pub version: u8,
    pub op: Content,
}

/// Mathematical image of `Content`, with sub-packets as a `Seq`.
pub enum ContentModel {
    Literal(u64),
    Operator(u8, Seq<PacketModel>),
}

/// Mathematical image of `Packet`.
pub struct PacketModel {
    pub version: u8,
    pub op: ContentModel,
}

pub open spec fn packet_model(p: Packet) -> PacketModel
    decreases p,
{
    PacketModel { version: p.version, op: content_model(p.op) }
}

pub open spec fn content_model(c: Content) -> ContentModel
    decreases c,
{
    match c {
        Content::Literal(v) => ContentModel::Literal(v),
        Content::Operator(x, packets) => ContentModel::Operator(x, packets_model(packets@)),
    }
}

pub open spec fn packets_model(s: Seq<Packet>) -> Seq<PacketModel>
    decreases s,
{
    if s.len() == 0 {
        Seq::empty()
    } else {
        seq![packet_model(s[0])] + packets_model(s.subrange(1, s.len() as int))
    }
}

impl View for Packet {
    type V = PacketModel;

    open spec fn view(&self) -> PacketModel {
        packet_model(*self)
    }
}

impl View for Content {
    type V = ContentModel;

    open spec fn view(&self) -> ContentModel {
        content_model(*self)
    }
}

pub proof fn lemma_packets_model_len(s: Seq<Packet>)
    ensures
        packets_model(s).len() == s.len(),
        forall|i: int| 0 <= i < s.len() ==> packets_model(s)[i] == packet_model(s[i]),
    decreases s,
{
    if s.len() > 0 {
        lemma_packets_model_len(s.subrange(1, s.len() as int));
    }
}

/// Sum of the versions of a packet and of everything nested inside it.
pub open spec fn model_version_sum(pm: PacketModel) -> int
    decreases pm,
{
    pm.version + model_content_version_sum(pm.op)
}

/// Version sum of all sub-packets of a content value (zero for literals).
pub open spec fn model_content_version_sum(c: ContentModel) -> int
    decreases c,
{
    match c {
        ContentModel::Literal(_) => 0,
        ContentModel::Operator(_, subs) => model_seq_version_sum(subs),
    }
}

pub open spec fn model_seq_version_sum(s: Seq<PacketModel>) -> int
    decreases s,
{
    if s.len() == 0 {
        0
    } else {
        model_version_sum(s[0]) + model_seq_version_sum(s.subrange(1, s.len() as int))
    }
}

pub proof fn lemma_version_sum_nonneg(pm: PacketModel)
    ensures
        model_version_sum(pm) >= pm.version >= 0,
    decreases pm,
{
    lemma_content_version_sum_nonneg(pm.op);
}

pub proof fn lemma_content_version_sum_nonneg(c: ContentModel)
    ensures
        model_content_version_sum(c) >= 0,
    decreases c,
{
    match c {
        ContentModel::Literal(_) => {},
        ContentModel::Operator(_, subs) => {
            lemma_seq_version_sum_nonneg(subs);
        },
    }
}

pub proof fn lemma_seq_version_sum_nonneg(s: Seq<PacketModel>)
    ensures
        model_seq_version_sum(s) >= 0,
    decreases s,
{
    if s.len() > 0 {
        lemma_version_sum_nonneg(s[0]);
        lemma_seq_version_sum_nonneg(s.subrange(1, s.len() as int));
    }
}

/// Version sum of the first `n` packets of a sequence: the loop view of
/// `model_seq_version_sum`.
proof fn lemma_seq_version_sum_step(s: Seq<PacketModel>, n: int)
    requires
        0 <= n < s.len(),
    ensures
        model_seq_version_sum(s.subrange(0, n + 1)) == model_seq_version_sum(s.subrange(0, n))
            + model_version_sum(s[n]),
    decreases n,
{
    reveal_with_fuel(model_seq_version_sum, 3);
    let a = s.subrange(0, n + 1);
    let b = s.subrange(0, n);
    if n == 0 {
        assert(a =~= seq![s[0]]);
        assert(a.subrange(1, 1) =~= Seq::<PacketModel>::empty());
        assert(model_seq_version_sum(a) == model_version_sum(s[0]));
        assert(model_seq_version_sum(b) == 0);
    } else {
        let tail = s.subrange(1, s.len() as int);
        lemma_seq_version_sum_step(tail, n - 1);
        assert(a.subrange(1, a.len() as int) =~= tail.subrange(0, n));
        assert(b.subrange(1, b.len() as int) =~= tail.subrange(0, n - 1));
        assert(a[0] == s[0] && b[0] == s[0]);
        assert(tail[n - 1] == s[n]);
        assert(model_seq_version_sum(a) == model_version_sum(s[0]) + model_seq_version_sum(
            tail.subrange(0, n),
        ));
        assert(model_seq_version_sum(b) == model_version_sum(s[0]) + model_seq_version_sum(
            tail.subrange(0, n - 1),
        ));
    }
}

proof fn lemma_seq_version_sum_full(s: Seq<PacketModel>)
    ensures
        model_seq_version_sum(s.subrange(0, s.len() as int)) == model_seq_version_sum(s),
{
    assert(s.subrange(0, s.len() as int) =~= s);
}

impl Content {
    /// Sum of the version numbers of the sub-packets (and their nested
    /// packets); zero for a literal.
    pub fn subpackets_version_sum(&self) -> (sum: u64)
        requires
            model_content_version_sum(self@) <= u64::MAX,
        ensures
            sum == model_content_version_sum(self@),
        decreases *self,
    {
        let mut sum: u64 = 0;
        if let Content::Operator(_, packets) = self {
            proof {
                lemma_packets_model_len(packets@);
            }
            let ghost subs = packets_model(packets@);
            let mut i: usize = 0;
            proof {
                assert(subs.subrange(0, 0) =~= Seq::<PacketModel>::empty());
            }
            while i < packets.len()
                invariant
                    0 <= i <= packets.len(),
                    packets@.len() == subs.len(),
                    subs == packets_model(packets@),
                    forall|k: int| 0 <= k < subs.len() ==> subs[k] == packet_model(packets@[k]),
                    sum == model_seq_version_sum(subs.subrange(0, i as int)),
                    model_seq_version_sum(subs) <= u64::MAX,
                    self == Content::Operator(self->Operator_0, *packets),
                    model_content_version_sum(self@) == model_seq_version_sum(subs),
                decreases packets.len() - i,
            {
                proof {
                    lemma_seq_version_sum_step(subs, i as int);
                    lemma_version_sum_nonneg(subs[i as int]);
                    lemma_seq_suffix_sum_bound(subs, i as int);
                }
                let v = packets[i].version_sum();
                sum = sum + v;
                i = i + 1;
            }
            proof {
                lemma_seq_version_sum_full(subs);
            }
        }
        sum
    }
}

/// The version sum of a prefix plus the packet at its end never exceeds the
/// sum over the whole sequence.
proof fn lemma_seq_suffix_sum_bound(s: Seq<PacketModel>, n: int)
    requires
        0 <= n < s.len(),
    ensures
        model_seq_version_sum(s.subrange(0, n)) + model_version_sum(s[n])
            <= model_seq_version_sum(s),
    decreases s.len() - n,
{
    lemma_seq_version_sum_step(s, n);
    if n + 1 == s.len() {
        lemma_seq_version_sum_full(s);
    } else {
        lemma_seq_suffix_sum_bound_tail(s, n + 1);
    }
}

/// Dropping a suffix never increases the version sum.
proof fn lemma_seq_suffix_sum_bound_tail(s: Seq<PacketModel>, n: int)
    requires
        0 <= n <= s.len(),
    ensures
        model_seq_version_sum(s.subrange(0, n)) <= model_seq_version_sum(s),
    decreases s.len() - n,
{
    if n == s.len() {
        lemma_seq_version_sum_full(s);
    } else {
        lemma_seq_version_sum_step(s, n);
        lemma_version_sum_nonneg(s[n]);
        lemma_seq_suffix_sum_bound_tail(s, n + 1);
    }
}

/// Value denoted by a packet: a literal's value, or the operator applied
/// to the values of the sub-packets.  Operators: 0 sum, 1 product,
/// 2 minimum, 3 maximum, 5 greater-than, 6 less-than, 7 equality.
pub open spec fn model_eval(pm: PacketModel) -> int
    decreases pm, 0int,
{
    match pm.op {
        ContentModel::Literal(v) => v as int,
        ContentModel::Operator(o, subs) => if o == 0 {
            eval_sum_prefix(subs, subs.len() as int)
        } else if o == 1 {
            eval_product_prefix(subs, subs.len() as int)
        } else if o == 2 {
            eval_min_prefix(subs, subs.len() as int)
        } else if o == 3 {
            eval_max_prefix(subs, subs.len() as int)
        } else if o == 5 && subs.len() == 2 {
            if model_eval(subs[0]) > model_eval(subs[1]) {
                1int
            } else {
                0int
            }
        } else if o == 6 && subs.len() == 2 {
            if model_eval(subs[0]) < model_eval(subs[1]) {
                1int
            } else {
                0int
            }
        } else if o == 7 && subs.len() == 2 {
            if model_eval(subs[0]) == model_eval(subs[1]) {
                1int
            } else {
                0int
            }
        } else {
            0int
        },
    }
}

/// Sum of the values of the first `n` packets.
pub open spec fn eval_sum_prefix(s: Seq<PacketModel>, n: int) -> int
    decreases s, n,
{
    if n <= 0 || n > s.len() {
        0
    } else {
        eval_sum_prefix(s, n - 1) + model_eval(s[n - 1])
    }
}

/// Product of the values of the first `n` packets.
pub open spec fn eval_product_prefix(s: Seq<PacketModel>, n: int) -> int
    decreases s, n,
{
    if n <= 0 || n > s.len() {
        1
    } else {
        eval_product_prefix(s, n - 1) * model_eval(s[n - 1])
    }
}

/// Least value among the first `n` packets.
pub open spec fn eval_min_prefix(s: Seq<PacketModel>, n: int) -> int
    decreases s, n,
{
    if n <= 0 || n > s.len() {
        0
    } else if n == 1 {
        model_eval(s[0])
    } else if model_eval(s[n - 1]) < eval_min_prefix(s, n - 1) {
        model_eval(s[n - 1])
    } else {
        eval_min_prefix(s, n - 1)
    }
}

/// Greatest value among the first `n` packets.
pub open spec fn eval_max_prefix(s: Seq<PacketModel>, n: int) -> int
    decreases s, n,
{
    if n <= 0 || n > s.len() {
        0
    } else if n == 1 {
        model_eval(s[0])
    } else if model_eval(s[n - 1]) > eval_max_prefix(s, n - 1) {
        model_eval(s[n - 1])
    } else {
        eval_max_prefix(s, n - 1)
    }
}

/// A packet on which `execute` is defined: every operator id is one of the
/// seven known operations, comparisons have exactly two sub-packets, and
/// minimum and maximum have at least one.
pub open spec fn model_wf(pm: PacketModel) -> bool
    decreases pm, 1int,
{
    match pm.op {
        ContentModel::Literal(_) => true,
        ContentModel::Operator(o, subs) => seq_wf(subs, subs.len() as int) && (o == 0 || o == 1
            || ((o == 2 || o == 3) && subs.len() > 0) || ((o == 5 || o == 6 || o == 7)
            && subs.len() == 2)),
    }
}

pub open spec fn seq_wf(s: Seq<PacketModel>, n: int) -> bool
    decreases s, n,
{
    if n <= 0 || n > s.len() {
        true
    } else {
        seq_wf(s, n - 1) && model_wf(s[n - 1])
    }
}

/// Every value and every intermediate sum or product that `execute` would
/// compute on this packet fits in a `u64`.
pub open spec fn eval_in_range(pm: PacketModel) -> bool
    decreases pm, 1int,
{
    match pm.op {
        ContentModel::Literal(_) => true,
        ContentModel::Operator(o, subs) => seq_in_range(subs, subs.len() as int) && (o == 0
            ==> eval_sum_prefix(subs, subs.len() as int) <= u64::MAX) && (o == 1 ==> forall|n: int|
            0 <= n <= subs.len() ==> #[trigger] eval_product_prefix(subs, n) <= u64::MAX),
    }
}

pub open spec fn seq_in_range(s: Seq<PacketModel>, n: int) -> bool
    decreases s, n,
{
    if n <= 0 || n > s.len() {
        true
    } else {
        seq_in_range(s, n - 1) && eval_in_range(s[n - 1]) && model_eval(s[n - 1]) <= u64::MAX
    }
}

pub proof fn lemma_eval_nonneg(pm: PacketModel)
    ensures
        model_eval(pm) >= 0,
    decreases pm, 0int,
{
    match pm.op {
        ContentModel::Literal(_) => {},
        ContentModel::Operator(o, subs) => {
            lemma_eval_prefix_nonneg(subs, subs.len() as int);
            if subs.len() == 2 {
                lemma_eval_nonneg(subs[0]);
                lemma_eval_nonneg(subs[1]);
            }
        },
    }
}

proof fn lemma_eval_prefix_nonneg(s: Seq<PacketModel>, n: int)
    ensures
        eval_sum_prefix(s, n) >= 0,
        eval_product_prefix(s, n) >= 0,
        eval_min_prefix(s, n) >= 0,
        eval_max_prefix(s, n) >= 0,
    decreases s, n,
{
    if 0 < n <= s.len() {
        lemma_eval_prefix_nonneg(s, n - 1);
        lemma_eval_nonneg(s[n - 1]);
    }
}

proof fn lemma_seq_wf_index(s: Seq<PacketModel>, n: int, i: int)
    requires
        seq_wf(s, n),
        0 <= i < n <= s.len(),
    ensures
        model_wf(s[i]),
    decreases n,
{
    if i < n - 1 {
        lemma_seq_wf_index(s, n - 1, i);
    }
}

proof fn lemma_seq_in_range_index(s: Seq<PacketModel>, n: int, i: int)
    requires
        seq_in_range(s, n),
        0 <= i < n <= s.len(),
    ensures
        eval_in_range(s[i]),
        model_eval(s[i]) <= u64::MAX,
    decreases n,
{
    if i < n - 1 {
        lemma_seq_in_range_index(s, n - 1, i);
    }
}

/// Prefix sums of the packet values only grow, so each stays below the
/// total.
proof fn lemma_sum_prefix_monotone(s: Seq<PacketModel>, i: int, j: int)
    requires
        0 <= i <= j <= s.len(),
    ensures
        eval_sum_prefix(s, i) <= eval_sum_prefix(s, j),
    decreases j,
{
    if i < j {
        lemma_sum_prefix_monotone(s, i, j - 1);
        lemma_eval_nonneg(s[j - 1]);
    }
}

/// The least value of a nonempty prefix is the value of one of its packets,
/// so it stays within any bound the packet values obey.
proof fn lemma_min_max_prefix_bounded(s: Seq<PacketModel>, n: int)
    requires
        0 < n <= s.len(),
        seq_in_range(s, n),
    ensures
        eval_min_prefix(s, n) <= u64::MAX,
        eval_max_prefix(s, n) <= u64::MAX,
    decreases n,
{
    if n > 1 {
        lemma_min_max_prefix_bounded(s, n - 1);
    }
}

impl Packet {
    /// The two operands of a comparison operator packet: the values of its
    /// two sub-packets.
    fn comparison_helper(packets: &Vec<Packet>) -> (r: (u64, u64))
        requires
            packets@.len() == 2,
            seq_wf(packets_model(packets@), 2),
            seq_in_range(packets_model(packets@), 2),
        ensures
            r.0 == model_eval(packets_model(packets@)[0]),
            r.1 == model_eval(packets_model(packets@)[1]),
        decreases *packets, 1int,
    {
        proof {
            let subs = packets_model(packets@);
            lemma_packets_model_len(packets@);
            lemma_seq_wf_index(subs, 2, 0);
            lemma_seq_wf_index(subs, 2, 1);
            lemma_seq_in_range_index(subs, 2, 0);
            lemma_seq_in_range_index(subs, 2, 1);
        }
        let lhs: u64 = match packets[0].op {
            Content::Literal(x) => x,
            Content::Operator(_, _) => packets[0].execute(),
        };
        let rhs: u64 = match packets[1].op {
            Content::Literal(x) => x,
            Content::Operator(_, _) => packets[1].execute(),
        };
        (lhs, rhs)
    }

    /// Perform the computation denoted by the packet's operator.  Only
    /// defined on well-formed operator packets whose intermediate results
    /// fit in a `u64`.
    pub fn execute(&self) -> (r: u64)
        requires
            model_wf(self@),
            eval_in_range(self@),
            self@.op is Operator,
        ensures
            r == model_eval(self@),
        decreases *self, 0int,
    {
        proof {
            lemma_eval_nonneg(self@);
        }
        match &self.op {
            Content::Operator(0u8, packets) => {
                let ghost subs = packets_model(packets@);
                proof {
                    lemma_packets_model_len(packets@);
                }
                let mut acc: u64 = 0;
                let mut i: usize = 0;
                while i < packets.len()
                    invariant
                        0 <= i <= packets.len(),
                        packets@.len() == subs.len(),
                        subs == packets_model(packets@),
                        self.op == Content::Operator(0u8, *packets),
                        seq_wf(subs, subs.len() as int),
                        seq_in_range(subs, subs.len() as int),
                        eval_sum_prefix(subs, subs.len() as int) <= u64::MAX,
                        acc == eval_sum_prefix(subs, i as int),
                    decreases packets.len() - i,
                {
                    proof {
                        lemma_packets_model_len(packets@);
                        assert(decreases_to!(*self => self.op));
                        assert(decreases_to!(self.op => self.op->Operator_1));
                        assert(decreases_to!(*packets => packets@));
                        assert(decreases_to!(packets@ => packets@[i as int]));
                        lemma_seq_wf_index(subs, subs.len() as int, i as int);
                        lemma_seq_in_range_index(subs, subs.len() as int, i as int);
                        lemma_eval_prefix_nonneg(subs, i as int);
                        lemma_eval_nonneg(subs[i as int]);
                        lemma_sum_prefix_monotone(subs, i + 1, subs.len() as int);
                    }
                    let v: u64 = match packets[i].op {
                        Content::Literal(x) => x,
                        Content::Operator(_, _) => packets[i].execute(),
                    };
                    acc = acc + v;
                    i = i + 1;
                }
                acc
            },
            Content::Operator(1u8, packets) => {
                let ghost subs = packets_model(packets@);
                proof {
                    lemma_packets_model_len(packets@);
                }
                let mut acc: u64 = 1;
                let mut i: usize = 0;
                while i < packets.len()
                    invariant
                        0 <= i <= packets.len(),
                        packets@.len() == subs.len(),
                        subs == packets_model(packets@),
                        self.op == Content::Operator(1u8, *packets),
                        seq_wf(subs, subs.len() as int),
                        seq_in_range(subs, subs.len() as int),
                        forall|n: int| 0 <= n <= subs.len() ==> #[trigger] eval_product_prefix(
                            subs,
                            n,
                        ) <= u64::MAX,
                        acc == eval_product_prefix(subs, i as int),
                    decreases packets.len() - i,
                {
                    proof {
                        lemma_packets_model_len(packets@);
                        assert(decreases_to!(*self => self.op));
                        assert(decreases_to!(self.op => self.op->Operator_1));
                        assert(decreases_to!(*packets => packets@));
                        assert(decreases_to!(packets@ => packets@[i as int]));
                        lemma_seq_wf_index(subs, subs.len() as int, i as int);
                        lemma_seq_in_range_index(subs, subs.len() as int, i as int);
                        lemma_eval_prefix_nonneg(subs, i as int);
                        lemma_eval_nonneg(subs[i as int]);
                        assert(eval_product_prefix(subs, i + 1) <= u64::MAX);
                    }
                    let v: u64 = match packets[i].op {
                        Content::Literal(x) => x,
                        Content::Operator(_, _) => packets[i].execute(),
                    };
                    acc = acc * v;
                    i = i + 1;
                }
                acc
            },
            Content::Operator(2u8, packets) => {
                let ghost subs = packets_model(packets@);
                proof {
                    lemma_packets_model_len(packets@);
                    lemma_seq_wf_index(subs, subs.len() as int, 0);
                    lemma_seq_in_range_index(subs, subs.len() as int, 0);
                }
                let mut best: u64 = match packets[0].op {
                    Content::Literal(x) => x,
                    Content::Operator(_, _) => packets[0].execute(),
                };
                let mut i: usize = 1;
                while i < packets.len()
                    invariant
                        1 <= i <= packets.len(),
                        packets@.len() == subs.len(),
                        subs == packets_model(packets@),
                        self.op == Content::Operator(2u8, *packets),
                        seq_wf(subs, subs.len() as int),
                        seq_in_range(subs, subs.len() as int),
                        best == eval_min_prefix(subs, i as int),
                    decreases packets.len() - i,
                {
                    proof {
                        lemma_packets_model_len(packets@);
                        assert(decreases_to!(*self => self.op));
                        assert(decreases_to!(self.op => self.op->Operator_1));
                        assert(decreases_to!(*packets => packets@));
                        assert(decreases_to!(packets@ => packets@[i as int]));
                        lemma_seq_wf_index(subs, subs.len() as int, i as int);
                        lemma_seq_in_range_index(subs, subs.len() as int, i as int);
                        lemma_eval_nonneg(subs[i as int]);
                    }
                    let v: u64 = match packets[i].op {
                        Content::Literal(x) => x,
                        Content::Operator(_, _) => packets[i].execute(),
                    };
                    if v < best {
                        best = v;
                    }
                    i = i + 1;
                }
                best
            },
            Content::Operator(3u8, packets) => {
                let ghost subs = packets_model(packets@);
                proof {
                    lemma_packets_model_len(packets@);
                    lemma_seq_wf_index(subs, subs.len() as int, 0);
                    lemma_seq_in_range_index(subs, subs.len() as int, 0);
                }
                let mut best: u64 = match packets[0].op {
                    Content::Literal(x) => x,
                    Content::Operator(_, _) => packets[0].execute(),
                };
                let mut i: usize = 1;
                while i < packets.len()
                    invariant
                        1 <= i <= packets.len(),
                        packets@.len() == subs.len(),
                        subs == packets_model(packets@),
                        self.op == Content::Operator(3u8, *packets),
                        seq_wf(subs, subs.len() as int),
                        seq_in_range(subs, subs.len() as int),
                        best == eval_max_prefix(subs, i as int),
                    decreases packets.len() - i,
                {
                    proof {
                        lemma_packets_model_len(packets@);
                        assert(decreases_to!(*self => self.op));
                        assert(decreases_to!(self.op => self.op->Operator_1));
                        assert(decreases_to!(*packets => packets@));
                        assert(decreases_to!(packets@ => packets@[i as int]));
                        lemma_seq_wf_index(subs, subs.len() as int, i as int);
                        lemma_seq_in_range_index(subs, subs.len() as int, i as int);
                        lemma_eval_nonneg(subs[i as int]);
                    }
                    let v: u64 = match packets[i].op {
                        Content::Literal(x) => x,
                        Content::Operator(_, _) => packets[i].execute(),
                    };
                    if v > best {
                        best = v;
                    }
                    i = i + 1;
                }
                best
            },
            Content::Operator(5u8, packets) => {
                proof {
                    lemma_packets_model_len(packets@);
                }
                let (lhs, rhs) = Packet::comparison_helper(packets);
                if lhs > rhs {
                    1u64
                } else {
                    0u64
                }
            },
            Content::Operator(6u8, packets) => {
                proof {
                    lemma_packets_model_len(packets@);
                }
                let (lhs, rhs) = Packet::comparison_helper(packets);
                if lhs < rhs {
                    1u64
                } else {
                    0u64
                }
            },
            Content::Operator(7u8, packets) => {
                proof {
                    lemma_packets_model_len(packets@);
                }
                let (lhs, rhs) = Packet::comparison_helper(packets);
                if lhs == rhs {
                    1u64
                } else {
                    0u64
                }
            },
            _ => {
                proof {
                    assert(false);
                }
                0u64
            },
        }
    }

    /// Sum of this packet's version and the versions of all packets
    /// contained within it.
    pub fn version_sum(&self) -> (sum: u64)
        requires
            model_version_sum(self@) <= u64::MAX,
        ensures
            sum == model_version_sum(self@),
        decreases *self,
    {
        proof {
            lemma_content_version_sum_nonneg(self.op@);
        }
        let rest = match self.op {
            Content::Literal(_) => 0u64,
            Content::Operator(_, _) => self.op.subpackets_version_sum(),
        };
        (self.version as u64) + rest
    }
}

/// A bit string: every element is `0` or `1`.
pub open spec fn bits_ok(s: Seq<u8>) -> bool {
    forall|i: int| 0 <= i < s.len() ==> #[trigger] s[i] <= 1
}

/// Big-endian value of the `n` bits starting at `pos`.
pub open spec fn bits_value(s: Seq<u8>, pos: int, n: int) -> nat
    decreases n,
{
    if n <= 0 {
        0
    } else {
        bits_value(s, pos, n - 1) * 2 + s[pos + n - 1] as nat
    }
}

proof fn lemma_bits_value_bound(s: Seq<u8>, pos: int, n: int)
    requires
        0 <= pos,
        pos + n <= s.len(),
        bits_ok(s),
    ensures
        0 <= bits_value(s, pos, n) < pow2(if n >= 0 {
            n as nat
        } else {
            0
        }),
    decreases n,
{
    vstd::arithmetic::power2::lemma2_to64();
    if n > 0 {
        lemma_bits_value_bound(s, pos, n - 1);
        vstd::arithmetic::power2::lemma_pow2_unfold(n as nat);
    }
}

/// One packet, decoded from positions `pos .. end` of the bit string:
/// three version bits, then the packet's content.  `None` on malformed
/// input.  The second component of the result is the position just past
/// the packet.
pub open spec fn spec_parse_packet(s: Seq<u8>, pos: int, end: int) -> Option<(PacketModel, int)>
    decreases end - pos, 1int, 0int,
{
    if !(0 <= pos && pos + 3 <= end && end <= s.len()) {
        None
    } else {
        match spec_parse_content(s, pos + 3, end) {
            None => None,
            Some((c, e)) => Some(
                (PacketModel { version: bits_value(s, pos, 3) as u8, op: c }, e),
            ),
        }
    }
}

/// Content of a packet: three type-id bits, then a literal value for type
/// id 4 and sub-packets for every other type id.
pub open spec fn spec_parse_content(s: Seq<u8>, pos: int, end: int) -> Option<(ContentModel, int)>
    decreases end - pos, 0int, 0int,
{
    if !(0 <= pos && pos + 3 <= end && end <= s.len()) {
        None
    } else {
        let typeid = bits_value(s, pos, 3);
        if typeid == 4 {
            match spec_parse_literal(s, pos + 3, end, 0) {
                None => None,
                Some((v, e)) => Some((ContentModel::Literal(v), e)),
            }
        } else {
            match spec_parse_operator(s, pos + 3, end) {
                None => None,
                Some((subs, e)) => Some((ContentModel::Operator(typeid as u8, subs), e)),
            }
        }
    }
}

/// The five-bit groups of a literal value (a continuation bit and four
/// value bits each), accumulated into `acc`.  `None` when the bits run out
/// before a final group or the value exceeds a `u64`.
pub open spec fn spec_parse_literal(s: Seq<u8>, pos: int, end: int, acc: int) -> Option<
    (u64, int),
>
    decreases end - pos, 0int, 0int,
{
    if pos + 5 > end {
        None
    } else {
        let acc2 = acc * 16 + bits_value(s, pos + 1, 4);
        if acc2 > u64::MAX {
            None
        } else if s[pos] == 0 {
            Some((acc2 as u64, pos + 5))
        } else {
            spec_parse_literal(s, pos + 5, end, acc2)
        }
    }
}

/// The sub-packets of an operator: a length-type bit, then either a
/// fifteen-bit total length of the sub-packets or an eleven-bit count of
/// them, then the sub-packets themselves.
pub open spec fn spec_parse_operator(s: Seq<u8>, pos: int, end: int) -> Option<
    (Seq<PacketModel>, int),
>
    decreases end - pos, 2int, 0int,
{
    if pos >= end {
        None
    } else if s[pos] == 0 {
        if pos + 16 > end {
            None
        } else {
            let l = bits_value(s, pos + 1, 15);
            if pos + 16 + l > end {
                None
            } else {
                match spec_parse_until(s, pos + 16, pos + 16 + l) {
                    None => None,
                    Some(subs) => Some((subs, pos + 16 + l)),
                }
            }
        }
    } else {
        if pos + 12 > end {
            None
        } else {
            spec_parse_count(s, pos + 12, end, bits_value(s, pos + 1, 11) as int)
        }
    }
}

/// Packets parsed back to back from `pos` until exactly `stop`.
pub open spec fn spec_parse_until(s: Seq<u8>, pos: int, stop: int) -> Option<Seq<PacketModel>>
    decreases stop - pos, 3int, 0int,
{
    if pos >= stop {
        Some(Seq::empty())
    } else {
        match spec_parse_packet(s, pos, stop) {
            None => None,
            Some((p, e)) => if !(pos < e <= stop) {
                None
            } else {
                match spec_parse_until(s, e, stop) {
                    None => None,
                    Some(rest) => Some(seq![p] + rest),
                }
            },
        }
    }
}

/// Exactly `n` packets parsed back to back starting at `pos`.
pub open spec fn spec_parse_count(s: Seq<u8>, pos: int, end: int, n: int) -> Option<
    (Seq<PacketModel>, int),
>
    decreases end - pos, 3int, n,
{
    if n <= 0 {
        Some((Seq::empty(), pos))
    } else {
        match spec_parse_packet(s, pos, end) {
            None => None,
            Some((p, e)) => if !(pos < e <= end) {
                None
            } else {
                match spec_parse_count(s, e, end, n - 1) {
                    None => None,
                    Some((rest, e2)) => Some((seq![p] + rest, e2)),
                }
            },
        }
    }
}

proof fn lemma_packets_model_push(s: Seq<Packet>, p: Packet)
    ensures
        packets_model(s.push(p)) =~= packets_model(s).push(packet_model(p)),
    decreases s,
{
    lemma_packets_model_len(s);
    lemma_packets_model_len(s.push(p));
}

/// Big-endian value of `n` bits read starting at `pos`.
fn read_bits(bits: &Vec<u8>, pos: usize, n: usize) -> (v: u64)
    requires
        bits_ok(bits@),
        pos + n <= bits@.len(),
        n <= 15,
    ensures
        v == bits_value(bits@, pos as int, n as int),
        v < pow2(n as nat),
        v < 0x8000,
{
    proof {
        vstd::arithmetic::power2::lemma2_to64();
    }
    let len = bits.len();
    let mut v: u64 = 0;
    let mut i: usize = 0;
    while i < n
        invariant
            0 <= i <= n,
            n <= 15,
            pos + n <= bits@.len(),
            bits@.len() == len,
            bits_ok(bits@),
            v == bits_value(bits@, pos as int, i as int),
            v < pow2(i as nat),
            pow2(15) == 0x8000,
        decreases n - i,
    {
        proof {
            lemma_bits_value_bound(bits@, pos as int, i as int);
            vstd::arithmetic::power2::lemma_pow2_unfold((i + 1) as nat);
            vstd::arithmetic::power2::lemma_pow2_strictly_increases((i + 1) as nat, 16nat);
            vstd::arithmetic::power2::lemma2_to64();
        }
        let b = bits[pos + i];
        v = v * 2 + (b as u64);
        i = i + 1;
    }
    proof {
        if (n as nat) < 15 {
            vstd::arithmetic::power2::lemma_pow2_strictly_increases(n as nat, 15nat);
        }
    }
    v
}

impl Packet {
    /// Decode the packet at the head of a bit string, returning it together
    /// with the position just past it; `None` on malformed input.
    pub fn from_bin(bits: &Vec<u8>) -> (r: Option<(Packet, usize)>)
        requires
            bits_ok(bits@),
        ensures
            match r {
                Some(pe) => spec_parse_packet(bits@, 0, bits@.len() as int) == Some(
                    (pe.0@, pe.1 as int),
                ) && 0 < pe.1 <= bits@.len(),
                None => spec_parse_packet(bits@, 0, bits@.len() as int) is None,
            },
    {
        let end = bits.len();
        Packet::parse(bits, 0, end)
    }

    /// Decode one packet from positions `pos .. end`.
    fn parse(bits: &Vec<u8>, pos: usize, end: usize) -> (r: Option<(Packet, usize)>)
        requires
            bits_ok(bits@),
            pos <= end <= bits@.len(),
        ensures
            match r {
                Some(pe) => spec_parse_packet(bits@, pos as int, end as int) == Some(
                    (pe.0@, pe.1 as int),
                ) && pos < pe.1 <= end,
                None => spec_parse_packet(bits@, pos as int, end as int) is None,
            },
        decreases end - pos, 1int, 0int,
    {
        if end - pos < 3 {
            return None;
        }
        let v3 = read_bits(bits, pos, 3);
        proof {
            vstd::arithmetic::power2::lemma2_to64();
        }
        let version = v3 as u8;
        match Content::process(bits, pos + 3, end) {
            None => None,
            Some((c, e)) => Some((Packet { version, op: c }, e)),
        }
    }
}

impl Content {
    /// Decode the content part of a packet (type id and payload) from
    /// positions `pos .. end`.
    pub fn process(bits: &Vec<u8>, pos: usize, end: usize) -> (r: Option<(Content, usize)>)
        requires
            bits_ok(bits@),
            pos <= end <= bits@.len(),
        ensures
            match r {
                Some(ce) => spec_parse_content(bits@, pos as int, end as int) == Some(
                    (ce.0@, ce.1 as int),
                ) && pos < ce.1 <= end,
                None => spec_parse_content(bits@, pos as int, end as int) is None,
            },
        decreases end - pos, 0int, 0int,
    {
        if end - pos < 3 {
            return None;
        }
        let typeid = read_bits(bits, pos, 3);
        proof {
            vstd::arithmetic::power2::lemma2_to64();
        }
        if typeid == 4 {
            match Content::process_literal(bits, pos + 3, end) {
                None => None,
                Some((v, e)) => Some((Content::Literal(v), e)),
            }
        } else {
            match Content::process_operator(bits, pos + 3, end) {
                None => None,
                Some((subs, e)) => Some((Content::Operator(typeid as u8, subs), e)),
            }
        }
    }

    /// Decode a literal value: five-bit groups until one starts with a
    /// zero bit.
    fn process_literal(bits: &Vec<u8>, pos: usize, end: usize) -> (r: Option<(u64, usize)>)
        requires
            bits_ok(bits@),
            pos <= end <= bits@.len(),
        ensures
            match r {
                Some(ve) => spec_parse_literal(bits@, pos as int, end as int, 0) == Some(
                    (ve.0, ve.1 as int),
                ) && pos < ve.1 <= end,
                None => spec_parse_literal(bits@, pos as int, end as int, 0) is None,
            },
        decreases end - pos, 0int, 0int,
    {
        Content::literal_groups(bits, pos, end, 0)
    }

    /// Decode the remaining five-bit groups of a literal whose leading
    /// groups have already accumulated to `acc`.
    fn literal_groups(bits: &Vec<u8>, pos: usize, end: usize, acc: u64) -> (r: Option<
        (u64, usize),
    >)
        requires
            bits_ok(bits@),
            pos <= end <= bits@.len(),
        ensures
            match r {
                Some(ve) => spec_parse_literal(bits@, pos as int, end as int, acc as int) == Some(
                    (ve.0, ve.1 as int),
                ) && pos < ve.1 <= end,
                None => spec_parse_literal(bits@, pos as int, end as int, acc as int) is None,
            },
        decreases end - pos, 0int, 0int,
    {
        if end - pos < 5 {
            return None;
        }
        let group = read_bits(bits, pos + 1, 4);
        proof {
            vstd::arithmetic::power2::lemma2_to64();
        }
        if acc >= 0x1000_0000_0000_0000u64 {
            return None;
        }
        let acc2 = acc * 16 + group;
        if bits[pos] == 0 {
            Some((acc2, pos + 5))
        } else {
            Content::literal_groups(bits, pos + 5, end, acc2)
        }
    }

    /// Decode the sub-packets of an operator packet.
    fn process_operator(bits: &Vec<u8>, pos: usize, end: usize) -> (r: Option<
        (Vec<Packet>, usize),
    >)
        requires
            bits_ok(bits@),
            pos <= end <= bits@.len(),
        ensures
            match r {
                Some(se) => spec_parse_operator(bits@, pos as int, end as int) == Some(
                    (packets_model(se.0@), se.1 as int),
                ) && pos < se.1 <= end,
                None => spec_parse_operator(bits@, pos as int, end as int) is None,
            },
        decreases end - pos, 2int, 0int,
    {
        if pos >= end {
            return None;
        }
        if bits[pos] == 0 {
            if end - pos < 16 {
                return None;
            }
            let l = read_bits(bits, pos + 1, 15) as usize;
            if l > end - (pos + 16) {
                return None;
            }
            let stop = pos + 16 + l;
            let mut packets: Vec<Packet> = Vec::new();
            let mut i: usize = pos + 16;
            proof {
                assert(packets_model(packets@) =~= Seq::<PacketModel>::empty());
                assert forall|rest: Seq<PacketModel>| #[trigger] (packets_model(packets@)
                    + rest) =~= rest by {}
            }
            while i < stop
                invariant
                    bits_ok(bits@),
                    pos + 16 <= i <= stop <= end <= bits@.len(),
                    spec_parse_operator(bits@, pos as int, end as int) == (
                    match spec_parse_until(bits@, i as int, stop as int) {
                        None => None::<(Seq<PacketModel>, int)>,
                        Some(rest) => Some((packets_model(packets@) + rest, stop as int)),
                    }),
                decreases stop - i,
            {
                match Packet::parse(bits, i, stop) {
                    None => {
                        assert(spec_parse_until(bits@, i as int, stop as int) is None);
                        return None;
                    },
                    Some((p, e)) => {
                        proof {
                            lemma_packets_model_push(packets@, p);
                            assert(spec_parse_until(bits@, i as int, stop as int) == (
                            match spec_parse_until(bits@, e as int, stop as int) {
                                None => None::<Seq<PacketModel>>,
                                Some(rest) => Some(seq![p@] + rest),
                            }));
                            assert forall|rest: Seq<PacketModel>| #[trigger] (packets_model(
                                packets@.push(p),
                            ) + rest) =~= packets_model(packets@) + (seq![p@] + rest) by {}
                        }
                        packets.push(p);
                        i = e;
                    },
                }
            }
            proof {
                assert(spec_parse_until(bits@, stop as int, stop as int) == Some(
                    Seq::<PacketModel>::empty(),
                ));
                assert(packets_model(packets@) + Seq::<PacketModel>::empty() =~= packets_model(
                    packets@,
                ));
            }
            Some((packets, stop))
        } else {
            if end - pos < 12 {
                return None;
            }
            let n = read_bits(bits, pos + 1, 11);
            let mut packets: Vec<Packet> = Vec::new();
            let mut k: u64 = 0;
            let mut i: usize = pos + 12;
            proof {
                assert(packets_model(packets@) =~= Seq::<PacketModel>::empty());
                assert forall|rest: Seq<PacketModel>| #[trigger] (packets_model(packets@)
                    + rest) =~= rest by {}
            }
            while k < n
                invariant
                    bits_ok(bits@),
                    pos + 12 <= i <= end <= bits@.len(),
                    0 <= k <= n,
                    spec_parse_operator(bits@, pos as int, end as int) == (
                    match spec_parse_count(bits@, i as int, end as int, (n - k) as int) {
                        None => None::<(Seq<PacketModel>, int)>,
                        Some(re) => Some((packets_model(packets@) + re.0, re.1)),
                    }),
                decreases n - k,
            {
                match Packet::parse(bits, i, end) {
                    None => {
                        assert(spec_parse_count(bits@, i as int, end as int, (n - k) as int)
                            is None);
                        return None;
                    },
                    Some((p, e)) => {
                        proof {
                            lemma_packets_model_push(packets@, p);
                            assert(spec_parse_count(bits@, i as int, end as int, (n - k) as int)
                                == (match spec_parse_count(
                                bits@,
                                e as int,
                                end as int,
                                (n - k) as int - 1,
                            ) {
                                None => None::<(Seq<PacketModel>, int)>,
                                Some(re) => Some((seq![p@] + re.0, re.1)),
                            }));
                            assert forall|rest: Seq<PacketModel>| #[trigger] (packets_model(
                                packets@.push(p),
                            ) + rest) =~= packets_model(packets@) + (seq![p@] + rest) by {}
                        }
                        packets.push(p);
                        i = e;
                        k = k + 1;
                    },
                }
            }
            proof {
                assert(spec_parse_count(bits@, i as int, end as int, 0) == Some(
                    (Seq::<PacketModel>::empty(), i as int),
                ));
                assert(packets_model(packets@) + Seq::<PacketModel>::empty() =~= packets_model(
                    packets@,
                ));
            }
            Some((packets, i))
        }
    }
}

/// A hexadecimal digit, upper or lower case.
pub open spec fn is_hex_digit(c: char) -> bool {
    ('0' as int <= c as int <= '9' as int) || ('A' as int <= c as int <= 'F' as int) || (
    'a' as int <= c as int <= 'f' as int)
}

/// Numeric value of a hexadecimal digit.
pub open spec fn hex_val(c: char) -> int {
    if '0' as int <= c as int <= '9' as int {
        c as int - '0' as int
    } else if 'A' as int <= c as int <= 'F' as int {
        c as int - 'A' as int + 10
    } else if 'a' as int <= c as int <= 'f' as int {
        c as int - 'a' as int + 10
    } else {
        0
    }
}

/// The character a single bit prints as.
pub open spec fn bit_char(b: int) -> char {
    if b == 1 {
        '1'
    } else {
        '0'
    }
}

/// The four binary characters of one hexadecimal digit value, most
/// significant bit first.
pub open spec fn nibble_chars(v: int) -> Seq<char> {
    seq![bit_char(v / 8 % 2), bit_char(v / 4 % 2), bit_char(v / 2 % 2), bit_char(v % 2)]
}

/// Binary expansion of the first `n` characters of a hexadecimal string.
pub open spec fn hex_bits(s: Seq<char>, n: int) -> Seq<char>
    decreases n,
{
    if n <= 0 {
        Seq::empty()
    } else {
        hex_bits(s, n - 1) + nibble_chars(hex_val(s[n - 1]))
    }
}

/// Turn a line of hexadecimal digits into its string of binary digits,
/// four per input character.
pub fn parse_input(input: &String) -> (r: String)
    requires
        forall|i: int| 0 <= i < input@.len() ==> is_hex_digit(#[trigger] input@[i]),
    ensures
        r@ == hex_bits(input@, input@.len() as int),
{
    let mut out = String::new();
    let n = input.as_str().unicode_len();
    let mut i: usize = 0;
    proof {
        reveal_strlit("0");
        reveal_strlit("1");
        assert(out@ =~= hex_bits(input@, 0));
    }
    while i < n
        invariant
            0 <= i <= n,
            n == input@.len(),
            forall|k: int| 0 <= k < input@.len() ==> is_hex_digit(#[trigger] input@[k]),
            out@ == hex_bits(input@, i as int),
            "0"@ =~= seq!['0'],
            "1"@ =~= seq!['1'],
        decreases n - i,
    {
        let c = input.as_str().get_char(i);
        let u = c as u32;
        let v: u32 = if u >= '0' as u32 && u <= '9' as u32 {
            u - '0' as u32
        } else if u >= 'A' as u32 && u <= 'F' as u32 {
            u - 'A' as u32 + 10
        } else {
            u - 'a' as u32 + 10
        };
        proof {
            assert(v == hex_val(input@[i as int]));
            assert(0 <= v < 16);
        }
        if v / 8 % 2 == 1 {
            out.append("1");
        } else {
            out.append("0");
        }
        if v / 4 % 2 == 1 {
            out.append("1");
        } else {
            out.append("0");
        }
        if v / 2 % 2 == 1 {
            out.append("1");
        } else {
            out.append("0");
        }
        if v % 2 == 1 {
            out.append("1");
        } else {
            out.append("0");
        }
        proof {
            assert(out@ =~= hex_bits(input@, i as int) + nibble_chars(hex_val(input@[i as int])));
        }
        i = i + 1;
    }
    out
}

/// The bit a binary character denotes.
pub open spec fn char_bit(c: char) -> u8 {
    if c == '1' {
        1u8
    } else {
        0u8
    }
}

/// Turn a string of binary digits into the bits themselves; `None` if any
/// character is not `0` or `1`.
pub fn bits_of(s: &str) -> (r: Option<Vec<u8>>)
    ensures
        match r {
            Some(v) => v@.len() == s@.len() && bits_ok(v@) && forall|i: int|
                0 <= i < s@.len() ==> #[trigger] v@[i] == char_bit(s@[i]) && (s@[i] == '0'
                    || s@[i] == '1'),
            None => exists|i: int| 0 <= i < s@.len() && #[trigger] s@[i] != '0' && s@[i] != '1',
        },
{
    let n = s.unicode_len();
    let mut v: Vec<u8> = Vec::new();
    let mut i: usize = 0;
    while i < n
        invariant
            0 <= i <= n,
            n == s@.len(),
            v@.len() == i,
            forall|k: int| 0 <= k < i ==> #[trigger] v@[k] == char_bit(s@[k]) && (s@[k] == '0'
                || s@[k] == '1'),
        decreases n - i,
    {
        let c = s.get_char(i);
        if c == '0' {
            v.push(0);
        } else if c == '1' {
            v.push(1);
        } else {
            return None;
        }
        i = i + 1;
        assert(forall|k: int| 0 <= k < i ==> #[trigger] v@[k] == char_bit(s@[k]) && (s@[k] == '0'
            || s@[k] == '1'));
    }
    Some(v)
}

} // verus!

