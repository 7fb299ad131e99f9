use vstd::prelude::*;
use vstd::seq_lib::lemma_flatten_concat;
use vstd::utf8::{decode_utf8, encode_utf8, encode_utf8_decode_utf8, encode_utf8_valid_utf8, valid_utf8};

verus! {

/// The bytes of `"Content-Length: "`, which open every header.
pub open spec fn length_prefix() -> Seq<u8> {
    seq![67u8, 111, 110, 116, 101, 110, 116, 45, 76, 101, 110, 103, 116, 104, 58, 32]
}

/// The bytes of `"\r\n\r\n"`, which close every header.
pub open spec fn header_end() -> Seq<u8> {
    seq![13u8, 10, 13, 10]
}

pub open spec fn is_digit(b: u8) -> bool {
    48 <= b <= 57
}

/// The decimal digits of `n`, most significant first, without leading zeros.
pub open spec fn decimal(n: nat) -> Seq<u8>
    decreases n,
{
    if n < 10 {
        seq![(48 + n) as u8]
    } else {
        decimal(n / 10).push((48 + n % 10) as u8)
    }
}

/// The bytes that frame the payload `m`: `Content-Length: <len>\r\n\r\n<m>`.
pub open spec fn frame(m: Seq<u8>) -> Seq<u8> {
    length_prefix() + decimal(m.len()) + header_end() + m
}

/// How far the decoder has got inside the frame it is reading.
pub enum Phase {
    /// Between frames, skipping blank lines; `cr` says a carriage return was just read.
    Blank { cr: bool },
    /// The first `matched` bytes of the `Content-Length: ` prefix were read.
    Prefix { matched: nat },
    /// At least one digit of the length was read; `value` is what they spell.
    Digits { value: nat },
    /// The first `matched` bytes of the closing `\r\n\r\n` were read.
    Terminator { length: nat, matched: nat },
    /// Part of a body of `length` bytes was read.
    Body { length: nat, body: Seq<u8> },
}

/// What reading some bytes from a phase comes to.
pub enum Progress {
    Going(Phase),
    Done(Seq<u8>),
    Failed,
}

pub open spec fn start_phase() -> Phase {
    Phase::Blank { cr: false }
}

/// The phases that the decoder can be in.
pub open spec fn phase_wf(p: Phase) -> bool {
    match p {
        Phase::Blank { .. } => true,
        Phase::Prefix { matched } => 1 <= matched <= 16,
        Phase::Digits { value } => value <= usize::MAX,
        Phase::Terminator { length, matched } => length <= usize::MAX && 1 <= matched <= 3,
        Phase::Body { length, body } => length <= usize::MAX && body.len() < length,
    }
}

/// Reads the byte `b` in phase `p`.
pub open spec fn step(p: Phase, b: u8) -> Progress {
    match p {
        Phase::Blank { cr } => {
            if cr {
                if b == 10 {
                    Progress::Going(Phase::Blank { cr: false })
                } else {
                    Progress::Failed
                }
            } else if b == 13 {
                Progress::Going(Phase::Blank { cr: true })
            } else if b == length_prefix()[0] {
                Progress::Going(Phase::Prefix { matched: 1 })
            } else {
                Progress::Failed
            }
        },
        Phase::Prefix { matched } => {
            if matched < 16 {
                if b == length_prefix()[matched as int] {
                    Progress::Going(Phase::Prefix { matched: matched + 1 })
                } else {
                    Progress::Failed
                }
            } else if is_digit(b) {
                Progress::Going(Phase::Digits { value: (b - 48) as nat })
            } else {
                Progress::Failed
            }
        },
        Phase::Digits { value } => {
            if is_digit(b) {
                if value * 10 + (b - 48) <= usize::MAX {
                    Progress::Going(Phase::Digits { value: (value * 10 + (b - 48)) as nat })
                } else {
                    Progress::Failed
                }
            } else if b == 13 {
                Progress::Going(Phase::Terminator { length: value, matched: 1 })
            } else {
                Progress::Failed
            }
        },
        Phase::Terminator { length, matched } => {
            if b != header_end()[matched as int] {
                Progress::Failed
            } else if matched < 3 {
                Progress::Going(Phase::Terminator { length, matched: matched + 1 })
            } else if length == 0 {
                Progress::Done(Seq::empty())
            } else {
                Progress::Going(Phase::Body { length, body: Seq::empty() })
            }
        },
        Phase::Body { length, body } => {
            if body.len() + 1 == length {
                Progress::Done(body.push(b))
            } else {
                Progress::Going(Phase::Body { length, body: body.push(b) })
            }
        },
    }
}

/// Reads the bytes `s` one by one from phase `p`, up to the first frame completed or
/// the first byte that breaks the grammar.
pub open spec fn run_from(p: Phase, s: Seq<u8>) -> Progress
    decreases s.len(),
{
    if s.len() == 0 {
        Progress::Going(p)
    } else {
        match step(p, s[0]) {
            Progress::Going(q) => run_from(q, s.skip(1)),
            other => other,
        }
    }
}

/// No prefix of `s`, read from `p`, completes a frame or breaks the grammar.
pub open spec fn stays_going(p: Phase, s: Seq<u8>) -> bool {
    forall|k: int| 0 <= k <= s.len() ==> #[trigger] run_from(p, s.take(k)) is Going
}

/// Reading `a + b` is reading `a`, then, if still going, reading `b`.
pub proof fn lemma_run_concat(p: Phase, a: Seq<u8>, b: Seq<u8>)
    ensures
        run_from(p, a + b) == (match run_from(p, a) {
            Progress::Going(q) => run_from(q, b),
            other => other,
        }),
    decreases a.len(),
{
    if a.len() == 0 {
        assert(a + b =~= b);
    } else {
        assert((a + b)[0] == a[0]);
        assert((a + b).skip(1) =~= a.skip(1) + b);
        if let Progress::Going(q) = step(p, a[0]) {
            lemma_run_concat(q, a.skip(1), b);
        }
    }
}

proof fn lemma_stays_going_concat(p: Phase, a: Seq<u8>, q: Phase, b: Seq<u8>)
    requires
        stays_going(p, a),
        run_from(p, a) == Progress::Going(q),
        stays_going(q, b),
    ensures
        stays_going(p, a + b),
{
    assert forall|k: int| 0 <= k <= (a + b).len() implies #[trigger] run_from(
        p,
        (a + b).take(k),
    ) is Going by {
        if k <= a.len() {
            assert((a + b).take(k) =~= a.take(k));
        } else {
            assert((a + b).take(k) =~= a + b.take(k - a.len()));
            lemma_run_concat(p, a, b.take(k - a.len()));
        }
    }
}

proof fn lemma_one_step(p: Phase, b: u8)
    ensures
        run_from(p, seq![b]) == step(p, b),
        run_from(p, seq![b].take(0)) == Progress::Going(p),
{
    assert(seq![b].skip(1) =~= Seq::<u8>::empty());
    assert(seq![b].take(0) =~= Seq::<u8>::empty());
    if let Progress::Going(q) = step(p, b) {
        assert(run_from(q, Seq::<u8>::empty()) == Progress::Going(q));
    }
}

proof fn lemma_step_stays(p: Phase, b: u8, q: Phase)
    requires
        step(p, b) == Progress::Going(q),
    ensures
        stays_going(p, seq![b]),
        run_from(p, seq![b]) == Progress::Going(q),
{
    lemma_one_step(p, b);
    assert(seq![b].take(1) =~= seq![b]);
    assert forall|k: int| 0 <= k <= 1 implies #[trigger] run_from(p, seq![b].take(k)) is Going by {
        if k == 1 {
            assert(seq![b].take(1) =~= seq![b]);
        }
    }
}

proof fn lemma_empty_stays(p: Phase)
    ensures
        stays_going(p, Seq::empty()),
        run_from(p, Seq::empty()) == Progress::Going(p),
{
    assert forall|k: int| 0 <= k <= 0 implies #[trigger] run_from(p, Seq::<u8>::empty().take(k)) is Going by {
        assert(Seq::<u8>::empty().take(k) =~= Seq::<u8>::empty());
    }
}

proof fn lemma_prefix_walk(j: nat)
    requires
        1 <= j <= 16,
    ensures
        stays_going(Phase::Prefix { matched: j }, length_prefix().subrange(j as int, 16)),
        run_from(Phase::Prefix { matched: j }, length_prefix().subrange(j as int, 16))
            == Progress::Going(Phase::Prefix { matched: 16 }),
    decreases 16 - j,
{
    let s = length_prefix().subrange(j as int, 16);
    if j == 16 {
        assert(s =~= Seq::<u8>::empty());
        lemma_empty_stays(Phase::Prefix { matched: 16 });
    } else {
        lemma_prefix_walk(j + 1);
        let rest = length_prefix().subrange(j + 1 as int, 16);
        let b = length_prefix()[j as int];
        assert(s =~= seq![b] + rest);
        lemma_step_stays(Phase::Prefix { matched: j }, b, Phase::Prefix { matched: j + 1 });
        lemma_run_concat(Phase::Prefix { matched: j }, seq![b], rest);
        lemma_stays_going_concat(
            Phase::Prefix { matched: j },
            seq![b],
            Phase::Prefix { matched: j + 1 },
            rest,
        );
    }
}

proof fn lemma_prefix_run()
    ensures
        stays_going(start_phase(), length_prefix()),
        run_from(start_phase(), length_prefix()) == Progress::Going(Phase::Prefix { matched: 16 }),
{
    let lp = length_prefix();
    let rest = lp.subrange(1, 16);
    assert(lp =~= seq![lp[0]] + rest);
    lemma_prefix_walk(1);
    lemma_step_stays(start_phase(), lp[0], Phase::Prefix { matched: 1 });
    lemma_run_concat(start_phase(), seq![lp[0]], rest);
    lemma_stays_going_concat(start_phase(), seq![lp[0]], Phase::Prefix { matched: 1 }, rest);
}

proof fn lemma_digits_run(n: nat)
    requires
        n <= usize::MAX,
    ensures
        stays_going(Phase::Prefix { matched: 16 }, decimal(n)),
        run_from(Phase::Prefix { matched: 16 }, decimal(n)) == Progress::Going(
            Phase::Digits { value: n },
        ),
    decreases n,
{
    let p = Phase::Prefix { matched: 16 };
    if n < 10 {
        lemma_step_stays(p, (48 + n) as u8, Phase::Digits { value: n });
    } else {
        let d = (48 + n % 10) as u8;
        lemma_digits_run(n / 10);
        assert((n / 10) * 10 + n % 10 == n);
        lemma_step_stays(Phase::Digits { value: n / 10 }, d, Phase::Digits { value: n });
        lemma_run_concat(p, decimal(n / 10), seq![d]);
        assert(decimal(n) =~= decimal(n / 10) + seq![d]);
        lemma_stays_going_concat(p, decimal(n / 10), Phase::Digits { value: n / 10 }, seq![d]);
    }
}

proof fn lemma_body_run(length: nat, body: Seq<u8>, s: Seq<u8>)
    requires
        body.len() + s.len() < length,
    ensures
        stays_going(Phase::Body { length, body }, s),
        run_from(Phase::Body { length, body }, s) == Progress::Going(
            Phase::Body { length, body: body + s },
        ),
    decreases s.len(),
{
    let p = Phase::Body { length, body };
    if s.len() == 0 {
        assert(body + s =~= body);
        lemma_empty_stays(p);
    } else {
        let q = Phase::Body { length, body: body.push(s[0]) };
        assert(s =~= seq![s[0]] + s.skip(1));
        lemma_body_run(length, body.push(s[0]), s.skip(1));
        assert(body.push(s[0]) + s.skip(1) =~= body + s);
        lemma_step_stays(p, s[0], q);
        lemma_run_concat(p, seq![s[0]], s.skip(1));
        lemma_stays_going_concat(p, seq![s[0]], q, s.skip(1));
    }
}

/// Every frame reads back as its payload: from the start, the bytes of `frame(m)` yield
/// `m`, and no shorter prefix of them completes a frame or is rejected. So however the
/// bytes are cut into chunks, each chunk but the last leaves the decoder waiting, and
/// the last one yields `m` (see `lemma_run_concat`).
pub proof fn lemma_frame_round_trip(m: Seq<u8>)
    requires
        m.len() <= usize::MAX,
    ensures
        run_from(start_phase(), frame(m)) == Progress::Done(m),
        forall|k: int|
            0 <= k < frame(m).len() ==> #[trigger] run_from(start_phase(), frame(m).take(k)) is Going,
{
    let n = m.len();
    let head = length_prefix() + decimal(n);
    lemma_prefix_run();
    lemma_digits_run(n);
    lemma_run_concat(start_phase(), length_prefix(), decimal(n));
    lemma_stays_going_concat(
        start_phase(),
        length_prefix(),
        Phase::Prefix { matched: 16 },
        decimal(n),
    );
    // the first three bytes of the header end
    let t3 = seq![13u8, 10, 13];
    let d = Phase::Digits { value: n };
    let t1 = Phase::Terminator { length: n, matched: 1 };
    let t2 = Phase::Terminator { length: n, matched: 2 };
    let t3p = Phase::Terminator { length: n, matched: 3 };
    lemma_step_stays(d, 13, t1);
    lemma_step_stays(t1, 10, t2);
    lemma_step_stays(t2, 13, t3p);
    assert(t3 =~= seq![13u8] + seq![10u8] + seq![13u8]);
    lemma_run_concat(d, seq![13u8], seq![10u8]);
    lemma_stays_going_concat(d, seq![13u8], t1, seq![10u8]);
    lemma_run_concat(d, seq![13u8] + seq![10u8], seq![13u8]);
    lemma_stays_going_concat(d, seq![13u8] + seq![10u8], t2, seq![13u8]);
    lemma_run_concat(start_phase(), head, t3);
    lemma_stays_going_concat(start_phase(), head, d, t3);
    let before = head + t3;
    // everything but the last byte keeps going
    let all_but_last = frame(m).take(frame(m).len() - 1);
    let last = frame(m)[frame(m).len() - 1];
    assert(frame(m) =~= all_but_last.push(last));
    assert(all_but_last.push(last) =~= all_but_last + seq![last]);
    if n == 0 {
        assert(all_but_last =~= before);
        assert(last == 10);
        assert(step(t3p, 10) == Progress::Done(Seq::<u8>::empty()));
        lemma_one_step(t3p, 10);
        lemma_run_concat(start_phase(), before, seq![last]);
        assert(m =~= Seq::<u8>::empty());
    } else {
        let b0 = Phase::Body { length: n, body: Seq::empty() };
        let mid = m.take(n - 1);
        lemma_step_stays(t3p, 10, b0);
        lemma_run_concat(start_phase(), before, seq![10u8]);
        lemma_stays_going_concat(start_phase(), before, t3p, seq![10u8]);
        lemma_body_run(n, Seq::empty(), mid);
        assert(Seq::<u8>::empty() + mid =~= mid);
        lemma_run_concat(start_phase(), before + seq![10u8], mid);
        lemma_stays_going_concat(start_phase(), before + seq![10u8], b0, mid);
        assert(all_but_last =~= before + seq![10u8] + mid);
        assert(last == m[n - 1]);
        lemma_one_step(Phase::Body { length: n, body: mid }, last);
        assert(mid.push(last) =~= m);
        lemma_run_concat(start_phase(), all_but_last, seq![last]);
    }
    assert forall|k: int| 0 <= k < frame(m).len() implies #[trigger] run_from(
        start_phase(),
        frame(m).take(k),
    ) is Going by {
        assert(frame(m).take(k) =~= all_but_last.take(k));
    }
}

/// Cut anywhere, a frame reads back in two chunks: the first leaves the decoder going,
/// and the second, read from where the first left it, yields the payload.
pub proof fn lemma_split_round_trip(m: Seq<u8>, k: int)
    requires
        m.len() <= usize::MAX,
        0 <= k < frame(m).len(),
    ensures
        run_from(start_phase(), frame(m).take(k)) is Going,
        run_from(run_from(start_phase(), frame(m).take(k))->Going_0, frame(m).skip(k))
            == Progress::Done(m),
{
    lemma_frame_round_trip(m);
    assert(frame(m) =~= frame(m).take(k) + frame(m).skip(k));
    lemma_run_concat(start_phase(), frame(m).take(k), frame(m).skip(k));
}

/// The number that the decimal digits `d` spell, most significant first.
pub open spec fn digits_value(d: Seq<u8>) -> nat
    decreases d.len(),
{
    if d.len() == 0 {
        0
    } else {
        (digits_value(d.drop_last()) * 10 + (d.last() - 48)) as nat
    }
}

/// `d` is one or more decimal digits that spell `v`.
pub open spec fn spells(d: Seq<u8>, v: nat) -> bool {
    &&& d.len() > 0
    &&& forall|i: int| 0 <= i < d.len() ==> is_digit(#[trigger] d[i])
    &&& digits_value(d) == v
}

/// `s` is one whole frame of the payload `m`, as the grammar has it: blank lines, the
/// `Content-Length: ` prefix, digits (leading zeros allowed) that spell the length of
/// `m`, the closing `\r\n\r\n`, then `m`.
pub open spec fn is_frame(s: Seq<u8>, m: Seq<u8>) -> bool {
    exists|k: nat, d: Seq<u8>|
        #[trigger] spells(d, m.len()) && s == #[trigger] blank_lines(k) + length_prefix() + d
            + header_end() + m
}

/// Where `t` has led the decoder from the start to phase `p`, `t` is `k` blank lines
/// followed by the part of a header (with length digits `d`) and body that `p` says.
pub open spec fn read_so_far(t: Seq<u8>, p: Phase, k: nat, d: Seq<u8>) -> bool {
    match p {
        Phase::Blank { cr } => t == blank_lines(k) + if cr {
            seq![13u8]
        } else {
            Seq::<u8>::empty()
        },
        Phase::Prefix { matched } => 1 <= matched <= 16 && t == blank_lines(k)
            + length_prefix().take(matched as int),
        Phase::Digits { value } => spells(d, value) && t == blank_lines(k) + length_prefix() + d,
        Phase::Terminator { length, matched } => 1 <= matched <= 3 && spells(d, length) && t
            == blank_lines(k)
            + length_prefix() + d + header_end().take(matched as int),
        Phase::Body { length, body } => spells(d, length) && t == blank_lines(k) + length_prefix()
            + d + header_end() + body,
    }
}

proof fn lemma_run_snoc(p: Phase, t: Seq<u8>, b: u8)
    ensures
        run_from(p, t.push(b)) == (match run_from(p, t) {
            Progress::Going(q) => step(q, b),
            other => other,
        }),
{
    assert(t.push(b) =~= t + seq![b]);
    lemma_run_concat(p, t, seq![b]);
    if let Progress::Going(q) = run_from(p, t) {
        lemma_one_step(q, b);
    }
}

/// What the decoder has read from the start, while it is still going, has the shape
/// that its phase says.
proof fn lemma_read_so_far(t: Seq<u8>) -> (w: (nat, Seq<u8>))
    requires
        run_from(start_phase(), t) is Going,
    ensures
        read_so_far(t, run_from(start_phase(), t)->Going_0, w.0, w.1),
    decreases t.len(),
{
    let lp = length_prefix();
    let he = header_end();
    if t.len() == 0 {
        assert(blank_lines(0) + Seq::<u8>::empty() =~= t);
        (0, Seq::empty())
    } else {
        let u = t.drop_last();
        let b = t.last();
        assert(u.push(b) =~= t);
        lemma_run_snoc(start_phase(), u, b);
        let (k, d) = lemma_read_so_far(u);
        let p = run_from(start_phase(), u)->Going_0;
        let bl = blank_lines(k);
        match p {
            Phase::Blank { cr } => {
                if cr {
                    assert(blank_lines(k + 1) == bl + seq![13u8, 10]);
                    assert(t =~= blank_lines(k + 1) + Seq::<u8>::empty());
                    (k + 1, d)
                } else if b == 13 {
                    assert(t =~= bl + seq![13u8]);
                    (k, d)
                } else {
                    assert(t =~= bl + lp.take(1));
                    (k, d)
                }
            },
            Phase::Prefix { matched } => {
                if matched < 16 {
                    assert(t =~= bl + lp.take(matched + 1 as int));
                    (k, d)
                } else {
                    let d1 = seq![b];
                    assert(d1.drop_last() =~= Seq::<u8>::empty());
                    assert(digits_value(d1.drop_last()) == 0);
                    assert(digits_value(d1) == (b - 48) as nat);
                    assert(lp.take(16) =~= lp);
                    assert(t =~= bl + lp + d1);
                    (k, d1)
                }
            },
            Phase::Digits { value } => {
                if is_digit(b) {
                    let d1 = d.push(b);
                    assert(d1.drop_last() =~= d);
                    assert(d1.last() == b);
                    assert(digits_value(d1) == (digits_value(d) * 10 + (b - 48)) as nat);
                    assert(t =~= bl + lp + d1);
                    assert forall|i: int| 0 <= i < d1.len() implies is_digit(#[trigger] d1[i]) by {
                        if i < d.len() {
                            assert(d1[i] == d[i]);
                        }
                    }
                    (k, d1)
                } else {
                    assert(t =~= bl + lp + d + he.take(1));
                    (k, d)
                }
            },
            Phase::Terminator { length, matched } => {
                if matched < 3 {
                    assert(t =~= bl + lp + d + he.take(matched + 1 as int));
                } else {
                    assert(he.take(3).push(10) =~= he);
                    assert(t =~= bl + lp + d + he + Seq::<u8>::empty());
                }
                (k, d)
            },
            Phase::Body { length, body } => {
                assert(t =~= bl + lp + d + he + body.push(b));
                (k, d)
            },
        }
    }
}

proof fn lemma_digits_read(d: Seq<u8>, v: nat)
    requires
        spells(d, v),
        v <= usize::MAX,
    ensures
        run_from(Phase::Prefix { matched: 16 }, d) == Progress::Going(Phase::Digits { value: v }),
    decreases d.len(),
{
    let c = d.last();
    let e = d.drop_last();
    assert(d =~= e.push(c));
    lemma_run_snoc(Phase::Prefix { matched: 16 }, e, c);
    assert(is_digit(d[d.len() - 1]));
    if d.len() == 1 {
        assert(e =~= Seq::<u8>::empty());
        assert(digits_value(e) == 0);
        assert(run_from(Phase::Prefix { matched: 16 }, e) == Progress::Going(
            Phase::Prefix { matched: 16 },
        ));
        assert(v == c - 48);
    } else {
        assert forall|i: int| 0 <= i < e.len() implies is_digit(#[trigger] e[i]) by {
            assert(e[i] == d[i]);
        }
        lemma_digits_read(e, digits_value(e));
    }
}

proof fn lemma_after_digits(m: Seq<u8>)
    requires
        m.len() <= usize::MAX,
    ensures
        run_from(Phase::Digits { value: m.len() }, header_end() + m) == Progress::Done(m),
        run_from(Phase::Digits { value: m.len() }, (header_end() + m).drop_last()) is Going,
{
    let n = m.len();
    let he = header_end();
    let t3 = Phase::Terminator { length: n, matched: 3 };
    let head = seq![13u8, 10, 13];
    assert(head =~= seq![13u8].push(10).push(13));
    assert(seq![13u8] =~= Seq::<u8>::empty().push(13));
    lemma_run_snoc(Phase::Digits { value: n }, Seq::empty(), 13);
    lemma_run_snoc(Phase::Digits { value: n }, seq![13u8], 10);
    lemma_run_snoc(Phase::Digits { value: n }, seq![13u8].push(10), 13);
    assert(run_from(Phase::Digits { value: n }, head) == Progress::Going(t3));
    assert(he =~= head.push(10));
    lemma_run_snoc(Phase::Digits { value: n }, head, 10);
    if n == 0 {
        assert(m =~= Seq::<u8>::empty());
        assert(he + m =~= he);
        assert((he + m).drop_last() =~= head);
    } else {
        let b0 = Phase::Body { length: n, body: Seq::empty() };
        let mid = m.drop_last();
        lemma_body_run(n, Seq::empty(), mid);
        assert(Seq::<u8>::empty() + mid =~= mid);
        lemma_run_concat(Phase::Digits { value: n }, he, mid);
        assert((he + m).drop_last() =~= he + mid);
        assert(he + m =~= (he + mid).push(m.last()));
        lemma_run_snoc(Phase::Digits { value: n }, he + mid, m.last());
        assert(mid.push(m.last()) =~= m);
    }
}

/// The decoder follows the grammar exactly: reading `s` from the start completes a
/// frame with payload `m` on the last byte of `s`, and not before, exactly when `s` is
/// one whole frame of `m`.
pub proof fn lemma_frame_grammar(s: Seq<u8>, m: Seq<u8>)
    requires
        m.len() <= usize::MAX,
    ensures
        (s.len() > 0 && run_from(start_phase(), s) == Progress::Done(m) && run_from(
            start_phase(),
            s.drop_last(),
        ) is Going) <==> is_frame(s, m),
{
    let lp = length_prefix();
    let he = header_end();
    if s.len() > 0 && run_from(start_phase(), s) == Progress::Done(m) && run_from(
        start_phase(),
        s.drop_last(),
    ) is Going {
        let u = s.drop_last();
        let b = s.last();
        assert(u.push(b) =~= s);
        lemma_run_snoc(start_phase(), u, b);
        let (k, d) = lemma_read_so_far(u);
        let p = run_from(start_phase(), u)->Going_0;
        match p {
            Phase::Terminator { length, matched } => {
                assert(he.take(3).push(10) =~= he);
                assert(s =~= blank_lines(k) + lp + d + he + m);
            },
            Phase::Body { length, body } => {
                assert(step(p, b) == Progress::Done(m));
                assert(m == body.push(b));
                assert(s =~= blank_lines(k) + lp + d + he + m);
            },
            _ => {},
        }
        assert(is_frame(s, m));
    }
    if is_frame(s, m) {
        let (k, d) = choose|k: nat, d: Seq<u8>|
            #[trigger] spells(d, m.len()) && s == #[trigger] blank_lines(k) + length_prefix() + d
                + header_end() + m;
        let head = blank_lines(k) + lp + d;
        lemma_blank_lines_run(k);
        lemma_prefix_run();
        lemma_digits_read(d, m.len());
        lemma_run_concat(start_phase(), blank_lines(k), lp);
        lemma_run_concat(start_phase(), blank_lines(k) + lp, d);
        lemma_after_digits(m);
        assert(s =~= head + (he + m));
        lemma_run_concat(start_phase(), head, he + m);
        assert(s.drop_last() =~= head + (he + m).drop_last());
        lemma_run_concat(start_phase(), head, (he + m).drop_last());
    }
}

proof fn lemma_first_mismatch(t: Seq<u8>, j: int) -> (i: int)
    requires
        0 <= j <= 16,
        t.len() >= 16,
        t.take(16) != length_prefix(),
        t.take(j) == length_prefix().take(j),
    ensures
        j <= i < 16,
        t.take(i) == length_prefix().take(i),
        t[i] != length_prefix()[i],
    decreases 16 - j,
{
    if j == 16 {
        assert(t.take(16) =~= length_prefix());
        j
    } else if t[j] != length_prefix()[j] {
        j
    } else {
        assert(t.take(j + 1) =~= length_prefix().take(j + 1));
        lemma_first_mismatch(t, j + 1)
    }
}

/// Input whose header is not `Content-Length` is rejected: after any number of blank
/// lines, sixteen or more bytes that neither spell `Content-Length: ` nor open one more
/// blank line break the grammar, so no frame is ever read from them.
pub proof fn lemma_rejects_non_length_header(k: nat, t: Seq<u8>)
    requires
        t.len() >= 16,
        t.take(16) != length_prefix(),
        !(t[0] == 13 && t[1] == 10),
    ensures
        run_from(start_phase(), blank_lines(k) + t) == Progress::Failed,
{
    assert(t.take(0) =~= length_prefix().take(0));
    let i = lemma_first_mismatch(t, 0);
    if i == 0 && t[0] == 13 {
        let cr = Phase::Blank { cr: true };
        lemma_blank_lines_run(k);
        lemma_run_concat(start_phase(), blank_lines(k), t);
        assert(t =~= seq![t[0]] + (seq![t[1]] + t.skip(2)));
        lemma_run_concat(start_phase(), seq![t[0]], seq![t[1]] + t.skip(2));
        lemma_one_step(start_phase(), t[0]);
        lemma_run_concat(cr, seq![t[1]], t.skip(2));
        lemma_one_step(cr, t[1]);
    } else {
        lemma_rejects_foreign_header(k, t, i);
    }
}

/// Reads the chunks one after another from `p`, as successive calls of `decode` take
/// them in.
pub open spec fn run_chunks(p: Phase, chunks: Seq<Seq<u8>>) -> Progress
    decreases chunks.len(),
{
    if chunks.len() == 0 {
        Progress::Going(p)
    } else {
        match run_from(p, chunks.first()) {
            Progress::Going(q) => run_chunks(q, chunks.drop_first()),
            other => other,
        }
    }
}

/// Reading chunks one after another is reading all their bytes at once.
pub proof fn lemma_run_chunks(p: Phase, chunks: Seq<Seq<u8>>)
    ensures
        run_chunks(p, chunks) == run_from(p, chunks.flatten()),
    decreases chunks.len(),
{
    if chunks.len() > 0 {
        lemma_run_concat(p, chunks.first(), chunks.drop_first().flatten());
        if let Progress::Going(q) = run_from(p, chunks.first()) {
            lemma_run_chunks(q, chunks.drop_first());
        }
    }
}

/// However a frame is cut into chunks (the last one not empty), reading them one after
/// another yields its payload with the last chunk, and leaves the decoder going after
/// each earlier one.
pub proof fn lemma_chunked_round_trip(m: Seq<u8>, chunks: Seq<Seq<u8>>)
    requires
        m.len() <= usize::MAX,
        chunks.flatten() == frame(m),
        chunks.len() > 0,
        chunks.last().len() > 0,
    ensures
        run_chunks(start_phase(), chunks) == Progress::Done(m),
        forall|i: int|
            0 <= i < chunks.len() ==> #[trigger] run_chunks(start_phase(), chunks.take(i)) is Going,
{
    lemma_frame_round_trip(m);
    lemma_run_chunks(start_phase(), chunks);
    assert forall|i: int| 0 <= i < chunks.len() implies #[trigger] run_chunks(
        start_phase(),
        chunks.take(i),
    ) is Going by {
        lemma_run_chunks(start_phase(), chunks.take(i));
        lemma_flatten_concat(chunks.take(i), chunks.skip(i));
        assert(chunks.take(i) + chunks.skip(i) =~= chunks);
        assert((chunks.take(i) + chunks.skip(i)).flatten() == chunks.flatten());
        assert(frame(m) =~= chunks.take(i).flatten() + chunks.skip(i).flatten());
        assert(chunks.skip(i)[chunks.skip(i).len() - 1] == chunks.last());
        chunks.skip(i).lemma_flatten_length_ge_single_element_length(chunks.skip(i).len() - 1);
        chunks.skip(i).lemma_flatten_and_flatten_alt_are_equivalent();
        let pre = chunks.take(i).flatten();
        assert(pre.len() < frame(m).len());
        assert(frame(m).take(pre.len() as int) =~= pre);
    }
}

/// `k` blank lines.
pub open spec fn blank_lines(k: nat) -> Seq<u8>
    decreases k,
{
    if k == 0 {
        Seq::empty()
    } else {
        blank_lines((k - 1) as nat) + seq![13u8, 10]
    }
}

proof fn lemma_blank_lines_run(k: nat)
    ensures
        run_from(start_phase(), blank_lines(k)) == Progress::Going(start_phase()),
    decreases k,
{
    if k > 0 {
        let cr = Phase::Blank { cr: true };
        lemma_blank_lines_run((k - 1) as nat);
        lemma_one_step(start_phase(), 13);
        lemma_one_step(cr, 10);
        lemma_run_concat(start_phase(), seq![13u8], seq![10u8]);
        assert(seq![13u8, 10] =~= seq![13u8] + seq![10u8]);
        lemma_run_concat(start_phase(), blank_lines((k - 1) as nat), seq![13u8, 10]);
    }
}

proof fn lemma_prefix_take(i: nat)
    requires
        1 <= i <= 16,
    ensures
        run_from(start_phase(), length_prefix().take(i as int)) == Progress::Going(
            Phase::Prefix { matched: i },
        ),
    decreases i,
{
    let lp = length_prefix();
    if i == 1 {
        assert(lp.take(1) =~= seq![lp[0]]);
        lemma_one_step(start_phase(), lp[0]);
    } else {
        let j = (i - 1) as nat;
        lemma_prefix_take(j);
        assert(lp.take(i as int) =~= lp.take(j as int) + seq![lp[j as int]]);
        lemma_one_step(Phase::Prefix { matched: j }, lp[j as int]);
        lemma_run_concat(start_phase(), lp.take(j as int), seq![lp[j as int]]);
    }
}

/// A header other than `Content-Length` is rejected: after any number of blank lines,
/// bytes that leave the `Content-Length: ` prefix at some position `i` (other than a
/// carriage return that may open one more blank line) break the grammar, so no frame
/// is ever read from them.
pub proof fn lemma_rejects_foreign_header(k: nat, t: Seq<u8>, i: int)
    requires
        0 <= i < t.len(),
        i < 16,
        t.take(i) == length_prefix().take(i),
        t[i] != length_prefix()[i],
        i == 0 ==> t[0] != 13,
    ensures
        run_from(start_phase(), blank_lines(k) + t) == Progress::Failed,
{
    let lp = length_prefix();
    lemma_blank_lines_run(k);
    lemma_run_concat(start_phase(), blank_lines(k), t);
    assert(t =~= t.take(i) + (seq![t[i]] + t.skip(i + 1)));
    lemma_run_concat(start_phase(), t.take(i), seq![t[i]] + t.skip(i + 1));
    if i == 0 {
        assert(t.take(0) =~= Seq::<u8>::empty());
        lemma_run_concat(start_phase(), seq![t[0]], t.skip(1));
        lemma_one_step(start_phase(), t[0]);
    } else {
        lemma_prefix_take(i as nat);
        lemma_run_concat(Phase::Prefix { matched: i as nat }, seq![t[i]], t.skip(i + 1));
        lemma_one_step(Phase::Prefix { matched: i as nat }, t[i]);
    }
}

/// Reading `s` from `p` completes a frame with its `n`-th byte.
pub open spec fn completes_at(p: Phase, s: Seq<u8>, n: int) -> bool {
    &&& 0 < n <= s.len()
    &&& run_from(p, s.take(n)) is Done
    &&& run_from(p, s.take(n - 1)) is Going
}

/// Reading `s` from `p` breaks the grammar at the byte of index `i`.
pub open spec fn breaks_at(p: Phase, s: Seq<u8>, i: int) -> bool {
    &&& 0 <= i < s.len()
    &&& run_from(p, s.take(i)) is Going
    &&& run_from(p, s.take(i + 1)) is Failed
}

/// The two ways in which a frame can be malformed.
#[derive(Debug, Clone, Copy, PartialEq, Eq)]
pub enum DecodeError {
    /// The byte at `position` of the chunk breaks the header grammar, or makes the
    /// declared length overflow.
    InvalidHeader { position: usize, byte: u8 },
    /// The frame ended with the first `consumed` bytes of the chunk, and its body is not
    /// UTF-8.
    InvalidText { consumed: usize },
}

#[derive(Debug, Clone, Copy)]
enum ParseState {
    Blank { cr: bool },
    Prefix { matched: usize },
    Digits { value: usize },
    Terminator { length: usize, matched: usize },
    Body { length: usize },
}

enum Advance {
    Continue,
    Complete(Vec<u8>),
    Invalid,
}

/// Incremental decoder of `Content-Length` frames: it keeps its progress between
/// chunks, so a frame may arrive cut anywhere.
pub struct LanguageServerDecoder {
    state: ParseState,
    body: Vec<u8>,
}

/// Relies on `String::from_utf8`: it succeeds exactly on well-formed UTF-8, and the
/// string it returns holds the characters that those bytes encode.
#[verifier::external_body]
fn text_from_utf8(bytes: Vec<u8>) -> (r: Option<String>)
    ensures
        r is Some <==> valid_utf8(bytes@),
        r matches Some(t) ==> t@ == decode_utf8(bytes@),
{
    String::from_utf8(bytes).ok()
}

/// The byte of index `i` of the `Content-Length: ` prefix.
fn prefix_byte(i: usize) -> (b: u8)
    requires
        i < 16,
    ensures
        b == length_prefix()[i as int],
{
    let bytes: [u8; 16] = [67, 111, 110, 116, 101, 110, 116, 45, 76, 101, 110, 103, 116, 104, 58, 32];
    proof {
        assert(bytes@ =~= length_prefix());
    }
    bytes[i]
}

impl View for LanguageServerDecoder {
    type V = Phase;

    closed spec fn view(&self) -> Phase {
        match self.state {
            ParseState::Blank { cr } => Phase::Blank { cr },
            ParseState::Prefix { matched } => Phase::Prefix { matched: matched as nat },
            ParseState::Digits { value } => Phase::Digits { value: value as nat },
            ParseState::Terminator { length, matched } => Phase::Terminator {
                length: length as nat,
                matched: matched as nat,
            },
            ParseState::Body { length } => Phase::Body { length: length as nat, body: self.body@ },
        }
    }
}

impl LanguageServerDecoder {
    pub closed spec fn wf(&self) -> bool {
        &&& phase_wf(self@)
        &&& !(self.state is Body) ==> self.body@.len() == 0
    }

    /// A decoder that waits for the start of a frame.
    pub fn new() -> (r: LanguageServerDecoder)
        ensures
            r.wf(),
            r@ == start_phase(),
    {
        LanguageServerDecoder { state: ParseState::Blank { cr: false }, body: Vec::new() }
    }

    fn advance(&mut self, b: u8) -> (r: Advance)
        requires
            old(self).wf(),
        ensures
            final(self).wf(),
            match step(old(self)@, b) {
                Progress::Going(q) => r is Continue && final(self)@ == q,
                Progress::Done(m) => r matches Advance::Complete(v) && v@ == m && final(self)@
                    == start_phase(),
                Progress::Failed => r is Invalid,
            },
    {
        let ghost before = self@;
        match self.state {
            ParseState::Blank { cr } => {
                if cr {
                    if b == 10 {
                        self.state = ParseState::Blank { cr: false };
                        Advance::Continue
                    } else {
                        Advance::Invalid
                    }
                } else if b == 13 {
                    self.state = ParseState::Blank { cr: true };
                    assert(step(Phase::Blank { cr: false }, b) == Progress::Going(self@));
                    Advance::Continue
                } else if b == prefix_byte(0) {
                    self.state = ParseState::Prefix { matched: 1 };
                    assert(step(Phase::Blank { cr: false }, b) == Progress::Going(self@));
                    Advance::Continue
                } else {
                    Advance::Invalid
                }
            },
            ParseState::Prefix { matched } => {
                if matched < 16 {
                    if b == prefix_byte(matched) {
                        self.state = ParseState::Prefix { matched: matched + 1 };
                        Advance::Continue
                    } else {
                        Advance::Invalid
                    }
                } else if 48 <= b && b <= 57 {
                    self.state = ParseState::Digits { value: (b - 48) as usize };
                    Advance::Continue
                } else {
                    Advance::Invalid
                }
            },
            ParseState::Digits { value } => {
                if 48 <= b && b <= 57 {
                    match value.checked_mul(10) {
                        Some(tens) => match tens.checked_add((b - 48) as usize) {
                            Some(v) => {
                                self.state = ParseState::Digits { value: v };
                                assert(step(before, b) == Progress::Going(self@));
                                Advance::Continue
                            },
                            None => Advance::Invalid,
                        },
                        None => Advance::Invalid,
                    }
                } else if b == 13 {
                    self.state = ParseState::Terminator { length: value, matched: 1 };
                    Advance::Continue
                } else {
                    Advance::Invalid
                }
            },
            ParseState::Terminator { length, matched } => {
                let expected: u8 = if matched % 2 == 0 {
                    13
                } else {
                    10
                };
                assert(expected == header_end()[matched as int]);
                if b != expected {
                    Advance::Invalid
                } else if matched < 3 {
                    self.state = ParseState::Terminator { length, matched: matched + 1 };
                    Advance::Continue
                } else if length == 0 {
                    self.state = ParseState::Blank { cr: false };
                    Advance::Complete(Vec::new())
                } else {
                    self.state = ParseState::Body { length };
                    assert(self.body@ =~= Seq::<u8>::empty());
                    Advance::Continue
                }
            },
            ParseState::Body { length } => {
                self.body.push(b);
                if self.body.len() == length {
                    let mut out: Vec<u8> = Vec::new();
                    std::mem::swap(&mut out, &mut self.body);
                    self.state = ParseState::Blank { cr: false };
                    assert(step(before, b) == Progress::Done(out@));
                    Advance::Complete(out)
                } else {
                    assert(step(before, b) == Progress::Going(self@));
                    Advance::Continue
                }
            },
        }
    }

    /// Reads the chunk `src` from where the previous chunks left off, up to the end of
    /// the first frame that it completes. `Ok((n, Some(text)))`: that frame ended with
    /// the `n`-th byte of `src`, and the decoder waits for the next one. `Ok((n, None))`:
    /// all of `src` was taken in (`n` is its length) and the frame is not complete yet.
    pub fn decode(&mut self, src: &[u8]) -> (r: Result<(usize, Option<String>), DecodeError>)
        requires
            old(self).wf(),
        ensures
            final(self).wf(),
            match run_from(old(self)@, src@) {
                Progress::Going(q) => r matches Ok((n, None)) && n == src.len() && final(self)@
                    == q,
                Progress::Done(m) => final(self)@ == start_phase() && match r {
                    Ok((n, Some(t))) => valid_utf8(m) && t@ == decode_utf8(m) && completes_at(
                        old(self)@,
                        src@,
                        n as int,
                    ),
                    Err(DecodeError::InvalidText { consumed }) => !valid_utf8(m) && completes_at(
                        old(self)@,
                        src@,
                        consumed as int,
                    ),
                    _ => false,
                },
                Progress::Failed => r matches Err(DecodeError::InvalidHeader { position, byte })
                    && breaks_at(old(self)@, src@, position as int) && byte == src@[position as int],
            },
    {
        let ghost p0 = self@;
        let mut i: usize = 0;
        proof {
            assert(src@.take(0) =~= Seq::<u8>::empty());
        }
        while i < src.len()
            invariant
                self.wf(),
                p0 == old(self)@,
                0 <= i <= src.len(),
                run_from(p0, src@.take(i as int)) == Progress::Going(self@),
            decreases src.len() - i,
        {
            let b = src[i];
            let ghost before = self@;
            proof {
                assert(src@.take(i + 1) =~= src@.take(i as int) + seq![b]);
                lemma_run_concat(p0, src@.take(i as int), seq![b]);
                lemma_one_step(before, b);
                assert(src@ =~= src@.take(i + 1) + src@.skip(i + 1));
                lemma_run_concat(p0, src@.take(i + 1), src@.skip(i + 1));
            }
            match self.advance(b) {
                Advance::Continue => {},
                Advance::Complete(body) => {
                    proof {
                        assert(src@.take(i + 1 - 1) =~= src@.take(i as int));
                        assert(run_from(p0, src@) == Progress::Done(body@));
                    }
                    return match text_from_utf8(body) {
                        Some(t) => Ok((i + 1, Some(t))),
                        None => Err(DecodeError::InvalidText { consumed: i + 1 }),
                    };
                },
                Advance::Invalid => {
                    proof {
                        assert(run_from(p0, src@) == Progress::Failed);
                    }
                    return Err(DecodeError::InvalidHeader { position: i, byte: b });
                },
            }
            i += 1;
        }
        proof {
            assert(src@.take(src.len() as int) =~= src@);
        }
        Ok((src.len(), None))
    }
}

/// Appends the decimal digits of `n`.
fn push_decimal(out: &mut Vec<u8>, n: usize)
    ensures
        final(out)@ == old(out)@ + decimal(n as nat),
    decreases n,
{
    if n >= 10 {
        push_decimal(out, n / 10);
    }
    out.push(48 + (n % 10) as u8);
    proof {
        if n >= 10 {
            assert(old(out)@ + decimal((n / 10) as nat) + seq![(48 + n % 10) as u8] =~= old(out)@
                + decimal(n as nat));
        } else {
            assert(old(out)@.push((48 + n % 10) as u8) =~= old(out)@ + decimal(n as nat));
        }
    }
}

/// Appends to `output` the frame of the message `response`:
/// `Content-Length: <byte length>\r\n\r\n<response>`.
pub fn write_message_str(output: &mut Vec<u8>, response: &str)
    ensures
        final(output)@ == old(output)@ + frame(encode_utf8(response@)),
{
    let bytes = response.as_bytes();
    let ghost start = output@;
    let mut i: usize = 0;
    while i < 16
        invariant
            0 <= i <= 16,
            output@ == start + length_prefix().take(i as int),
        decreases 16 - i,
    {
        output.push(prefix_byte(i));
        proof {
            assert(length_prefix().take(i + 1) =~= length_prefix().take(i as int).push(
                length_prefix()[i as int],
            ));
        }
        i += 1;
    }
    push_decimal(output, bytes.len());
    output.push(13);
    output.push(10);
    output.push(13);
    output.push(10);
    let ghost head = output@;
    proof {
        assert(length_prefix().take(16) =~= length_prefix());
        assert(head =~= start + length_prefix() + decimal(bytes@.len()) + header_end());
    }
    let mut j: usize = 0;
    while j < bytes.len()
        invariant
            0 <= j <= bytes@.len(),
            output@ == head + bytes@.take(j as int),
        decreases bytes@.len() - j,
    {
        output.push(bytes[j]);
        proof {
            assert(bytes@.take(j + 1) =~= bytes@.take(j as int).push(bytes@[j as int]));
        }
        j += 1;
    }
    proof {
        assert(bytes@.take(bytes@.len() as int) =~= bytes@);
        assert(output@ =~= start + frame(encode_utf8(response@)));
    }
}

/// Frames outgoing messages with a `Content-Length` header.
#[derive(Debug)]
pub struct LanguageServerEncoder;

impl LanguageServerEncoder {
    /// Appends the frame of `item` to `dst`.
    pub fn encode(&mut self, item: String, dst: &mut Vec<u8>)
        ensures
            final(dst)@ == old(dst)@ + frame(encode_utf8(item@)),
    {
        write_message_str(dst, item.as_str());
    }
}

/// A text message reads back as itself: its frame decodes to bytes that are valid
/// UTF-8 and spell the message again.
pub proof fn lemma_text_round_trip(text: Seq<char>)
    requires
        encode_utf8(text).len() <= usize::MAX,
    ensures
        run_from(start_phase(), frame(encode_utf8(text))) == Progress::Done(encode_utf8(text)),
        valid_utf8(encode_utf8(text)),
        decode_utf8(encode_utf8(text)) == text,
{
    lemma_frame_round_trip(encode_utf8(text));
    encode_utf8_valid_utf8(text);
    encode_utf8_decode_utf8(text);
}

} // verus!
