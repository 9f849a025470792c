//! The unified diff format: two header lines, then for every hunk a line of
//! positions and a line per change.
use vstd::prelude::*;
use vstd::slice::slice_to_vec;
use vstd::string::StringSliceAdditionalSpecFns;
use crate::changes::{all_changes, ends_with_newline, op_in_range, Change, ChangeTag};
use crate::group::{
    chained, grouping_step, grouping_upto, groups_of, head_of, hunks, lemma_groups_keep_changes,
    tail_of, with_op,
};
use crate::script::lemma_starts_nonneg;
use crate::text::TextDiff;
use crate::types::DiffOp;

verus! {

/// The decimal digits of `n`, in ASCII.
pub open spec fn decimal(n: nat) -> Seq<u8>
    decreases n,
{
    if n < 10 {
        seq![(48 + n) as u8]
    } else {
        decimal(n / 10).push((48 + n % 10) as u8)
    }
}

/// `<start>,<len>`: the first line of the range, counted from one, and the
/// number of its lines; of an empty range, the line before it.
pub open spec fn range_text(start: int, end: int) -> Seq<u8> {
    let len = end - start;
    let first = if len == 0 {
        start
    } else {
        start + 1
    };
    decimal(first as nat) + seq![0x2cu8] + decimal(len as nat)
}

/// `@@ -<old range> +<new range> @@` and a line feed.
pub open spec fn hunk_header(group: Seq<DiffOp>) -> Seq<u8> {
    seq![0x40u8, 0x40, 0x20, 0x2d] + range_text(group[0].old_start(), group.last().old_end())
        + seq![0x20u8, 0x2b] + range_text(group[0].new_start(), group.last().new_end())
        + seq![0x20u8, 0x40, 0x40, 0x0a]
}

/// The marker that starts the line of a change: a space, `-` or `+`.
pub open spec fn marker(tag: ChangeTag) -> u8 {
    match tag {
        ChangeTag::Equal => 0x20,
        ChangeTag::Delete => 0x2d,
        ChangeTag::Insert => 0x2b,
    }
}

/// `\ No newline at end of file`.
pub open spec fn hint_text() -> Seq<u8> {
    seq![
        0x5cu8, 0x20, 0x4e, 0x6f, 0x20, 0x6e, 0x65, 0x77, 0x6c, 0x69, 0x6e, 0x65, 0x20, 0x61, 0x74,
        0x20, 0x65, 0x6e, 0x64, 0x20, 0x6f, 0x66, 0x20, 0x66, 0x69, 0x6c, 0x65,
    ]
}

/// What follows the token on the line of a change. Tokens that carry no
/// terminators get a line feed. Of tokens that do, one without a terminator
/// gets a line feed and, if `hint` is set, the notice that the text lacked it.
pub open spec fn line_end(value: Seq<u8>, terminated: bool, hint: bool) -> Seq<u8> {
    if !terminated {
        seq![0x0au8]
    } else if ends_with_newline(value) {
        Seq::empty()
    } else if hint {
        seq![0x0au8] + hint_text() + seq![0x0au8]
    } else {
        seq![0x0au8]
    }
}

/// The line of a change: its marker, the token, and the end of the line.
pub open spec fn change_line(c: Change, terminated: bool, hint: bool) -> Seq<u8> {
    seq![marker(c.tag)] + c.value@ + line_end(c.value@, terminated, hint)
}

/// The lines of the changes, one after the other.
pub open spec fn change_lines(changes: Seq<Change>, terminated: bool, hint: bool) -> Seq<u8>
    decreases changes.len(),
{
    if changes.len() == 0 {
        Seq::empty()
    } else {
        change_lines(changes.drop_last(), terminated, hint) + change_line(
            changes.last(),
            terminated,
            hint,
        )
    }
}

/// The text of one hunk: its header and the lines of its changes. A hunk without operations has no text.
pub open spec fn hunk_text<'a>(
    group: Seq<DiffOp>,
    old: Seq<&'a [u8]>,
    new: Seq<&'a [u8]>,
    terminated: bool,
    hint: bool,
) -> Seq<u8> {
    if group.len() == 0 {
        Seq::empty()
    } else {
        hunk_header(group) + change_lines(all_changes(group, old, new), terminated, hint)
    }
}

/// `--- <old name>`, `+++ <new name>`, each with a line feed.
pub open spec fn header_text(old_name: Seq<u8>, new_name: Seq<u8>) -> Seq<u8> {
    seq![0x2du8, 0x2d, 0x2d, 0x20] + old_name + seq![0x0au8] + seq![0x2bu8, 0x2b, 0x2b, 0x20]
        + new_name + seq![0x0au8]
}

/// Whether one of the first `k` hunks has operations.
pub open spec fn any_hunk(groups: Seq<Seq<DiffOp>>, k: int) -> bool
    decreases k,
{
    if k <= 0 {
        false
    } else {
        any_hunk(groups, k - 1) || groups[k - 1].len() > 0
    }
}

/// The text of the first `k` hunks. The header, if there is one, stands before the first hunk that has text.
pub open spec fn hunks_text<'a>(
    groups: Seq<Seq<DiffOp>>,
    k: int,
    old: Seq<&'a [u8]>,
    new: Seq<&'a [u8]>,
    terminated: bool,
    hint: bool,
    header: Option<(Seq<u8>, Seq<u8>)>,
) -> Seq<u8>
    decreases k,
{
    if k <= 0 {
        Seq::empty()
    } else {
        let before = hunks_text(groups, k - 1, old, new, terminated, hint, header);
        let group = groups[k - 1];
        let top = match header {
            Some(names) if group.len() > 0 && !any_hunk(groups, k - 1) => header_text(
                names.0,
                names.1,
            ),
            _ => Seq::empty(),
        };
        before + top + hunk_text(group, old, new, terminated, hint)
    }
}

/// The unified diff of a script: its hunks with `radius` tokens of context.
pub open spec fn unified_text<'a>(
    script: Seq<DiffOp>,
    old: Seq<&'a [u8]>,
    new: Seq<&'a [u8]>,
    terminated: bool,
    radius: int,
    hint: bool,
    header: Option<(Seq<u8>, Seq<u8>)>,
) -> Seq<u8> {
    let groups = groups_of(script, radius);
    hunks_text(groups, groups.len() as int, old, new, terminated, hint, header)
}

/// Every operation speaks of tokens that exist.
pub open spec fn all_in_range(ops: Seq<DiffOp>, old_len: int, new_len: int) -> bool {
    forall|i: int| 0 <= i < ops.len() ==> op_in_range(#[trigger] ops[i], old_len, new_len)
}

/// Grouping keeps every operation within the tokens that exist.
pub proof fn lemma_groups_in_range(ops: Seq<DiffOp>, n: int, old_len: int, new_len: int, i: int)
    requires
        all_in_range(ops, old_len, new_len),
        0 <= n,
        0 <= i <= ops.len(),
    ensures
        all_in_range(grouping_upto(ops, n, i).pending, old_len, new_len),
        forall|k: int|
            0 <= k < grouping_upto(ops, n, i).done.len() ==> all_in_range(
                #[trigger] grouping_upto(ops, n, i).done[k],
                old_len,
                new_len,
            ),
    decreases i,
{
    if i > 0 {
        lemma_groups_in_range(ops, n, old_len, new_len, i - 1);
        let g = grouping_upto(ops, n, i - 1);
        let op = ops[i - 1];
        assert(op_in_range(op, old_len, new_len));
        assert(op_in_range(head_of(op, n), old_len, new_len));
        assert(op_in_range(tail_of(op, n), old_len, new_len));
        let h = grouping_step(g, op, n, i - 1 == 0, i == ops.len());
        assert(all_in_range(with_op(g.pending, head_of(op, n)), old_len, new_len));
        assert(all_in_range(with_op(g.pending, tail_of(op, n)), old_len, new_len));
        assert(all_in_range(with_op(Seq::empty(), tail_of(op, n)), old_len, new_len));
        assert(all_in_range(g.pending.push(op), old_len, new_len));
        assert forall|k: int| 0 <= k < h.done.len() implies all_in_range(
            #[trigger] h.done[k],
            old_len,
            new_len,
        ) by {
            if k < g.done.len() {
                assert(h.done[k] == g.done[k]);
            }
        }
    }
}

/// Appends the decimal digits of `n`.
pub fn push_decimal(out: &mut Vec<u8>, n: usize)
    ensures
        final(out)@ == old(out)@ + decimal(n as nat),
    decreases n,
{
    let ghost before = out@;
    if n >= 10 {
        push_decimal(out, n / 10);
    }
    let digit: u8 = (48 + n % 10) as u8;
    out.push(digit);
    assert(out@ =~= before + decimal(n as nat));
}

/// Appends `<start>,<len>` for the range from `start` to `end`.
fn push_range(out: &mut Vec<u8>, start: usize, end: usize)
    requires
        start <= end,
    ensures
        final(out)@ == old(out)@ + range_text(start as int, end as int),
{
    let ghost before = out@;
    let len: usize = end - start;
    let first: usize = if len == 0 { start } else { start + 1 };
    push_decimal(out, first);
    out.push(0x2c);
    push_decimal(out, len);
    assert(out@ =~= before + range_text(start as int, end as int));
}

/// Appends the bytes of `text`.
fn push_bytes(out: &mut Vec<u8>, text: &[u8])
    ensures
        final(out)@ == old(out)@ + text@,
{
    let ghost before = out@;
    let mut i: usize = 0;
    while i < text.len()
        invariant
            i <= text@.len(),
            out@ == before + text@.take(i as int),
        decreases text@.len() - i,
    {
        out.push(text[i]);
        assert(text@.take(i + 1) =~= text@.take(i as int).push(text@[i as int]));
        assert(out@ =~= before + text@.take(i + 1));
        i = i + 1;
    }
    assert(text@.take(text@.len() as int) =~= text@);
}

/// Appends the header line of a hunk.
fn push_hunk_header(out: &mut Vec<u8>, group: &Vec<DiffOp>)
    requires
        group@.len() > 0,
        group@[0].bounded(),
        group@.last().bounded(),
        group@[0].old_start() <= group@.last().old_end(),
        group@[0].new_start() <= group@.last().new_end(),
    ensures
        final(out)@ == old(out)@ + hunk_header(group@),
{
    let ghost before = out@;
    let first = group[0];
    let last = group[group.len() - 1];
    let old_start: usize = first.old_range().0;
    let old_end: usize = last.old_range().1;
    let new_start: usize = first.new_range().0;
    let new_end: usize = last.new_range().1;
    out.push(0x40);
    out.push(0x40);
    out.push(0x20);
    out.push(0x2d);
    push_range(out, old_start, old_end);
    out.push(0x20);
    out.push(0x2b);
    push_range(out, new_start, new_end);
    out.push(0x20);
    out.push(0x40);
    out.push(0x40);
    out.push(0x0a);
    assert(out@ =~= before + hunk_header(group@));
}

/// Appends `\ No newline at end of file`.
fn push_hint(out: &mut Vec<u8>)
    ensures
        final(out)@ == old(out)@ + hint_text(),
{
    let ghost before = out@;
    let text: [u8; 27] = [
        0x5c, 0x20, 0x4e, 0x6f, 0x20, 0x6e, 0x65, 0x77, 0x6c, 0x69, 0x6e, 0x65, 0x20, 0x61, 0x74,
        0x20, 0x65, 0x6e, 0x64, 0x20, 0x6f, 0x66, 0x20, 0x66, 0x69, 0x6c, 0x65,
    ];
    let mut i: usize = 0;
    while i < 27
        invariant
            i <= 27,
            text@ == hint_text(),
            out@ == before + hint_text().take(i as int),
        decreases 27 - i,
    {
        out.push(text[i]);
        assert(hint_text().take(i + 1) =~= hint_text().take(i as int).push(hint_text()[i as int]));
        assert(out@ =~= before + hint_text().take(i + 1));
        i = i + 1;
    }
    assert(hint_text().take(27) =~= hint_text());
}

/// Appends the line of a change.
fn push_change_line(out: &mut Vec<u8>, c: &Change, terminated: bool, hint: bool)
    ensures
        final(out)@ == old(out)@ + change_line(*c, terminated, hint),
{
    let ghost before = out@;
    let mark: u8 = match c.tag {
        ChangeTag::Equal => 0x20,
        ChangeTag::Delete => 0x2d,
        ChangeTag::Insert => 0x2b,
    };
    out.push(mark);
    push_bytes(out, c.value);
    if !terminated {
        out.push(0x0a);
    } else if c.missing_newline() {
        out.push(0x0a);
        if hint {
            push_hint(out);
            out.push(0x0a);
        }
    }
    assert(out@ =~= before + change_line(*c, terminated, hint));
}

/// Appends the two header lines, if there are names for them.
fn push_header(out: &mut Vec<u8>, header: &Option<(Vec<u8>, Vec<u8>)>)
    ensures
        final(out)@ == old(out)@ + (match header_view(*header) {
            Some(names) => header_text(names.0, names.1),
            None => Seq::empty(),
        }),
{
    let ghost before = out@;
    match header {
        Some(names) => {
            out.push(0x2d);
            out.push(0x2d);
            out.push(0x2d);
            out.push(0x20);
            push_bytes(out, names.0.as_slice());
            out.push(0x0a);
            out.push(0x2b);
            out.push(0x2b);
            out.push(0x2b);
            out.push(0x20);
            push_bytes(out, names.1.as_slice());
            out.push(0x0a);
            assert(out@ =~= before + header_text(names.0@, names.1@));
        },
        None => {
            assert(out@ =~= before + Seq::<u8>::empty());
        },
    }
}

/// Appends the text of a hunk.
fn push_hunk<'a>(
    out: &mut Vec<u8>,
    group: &Vec<DiffOp>,
    old_tokens: &[&'a [u8]],
    new_tokens: &[&'a [u8]],
    terminated: bool,
    hint: bool,
)
    requires
        group@.len() > 0,
        all_in_range(group@, old_tokens@.len() as int, new_tokens@.len() as int),
        chained(group@),
    ensures
        final(out)@ == old(out)@ + hunk_text(group@, old_tokens@, new_tokens@, terminated, hint),
{
    let ghost before = out@;
    let old_total: usize = old_tokens.len();
    let new_total: usize = new_tokens.len();
    proof {
        assert(op_in_range(group@[0], old_total as int, new_total as int));
        assert(op_in_range(group@[group@.len() - 1], old_total as int, new_total as int));
        lemma_starts_nonneg(
            group@,
            group@[0].old_start(),
            group@[0].new_start(),
            group@.last().old_end(),
            group@.last().new_end(),
            0,
        );
    }
    push_hunk_header(out, group);
    let changes = crate::changes::iter_all_changes(group.as_slice(), old_tokens, new_tokens);
    let ghost with_header = out@;
    let mut c: usize = 0;
    while c < changes.len()
        invariant
            c <= changes@.len(),
            out@ == with_header + change_lines(changes@.take(c as int), terminated, hint),
        decreases changes@.len() - c,
    {
        assert(changes@.take(c + 1).drop_last() =~= changes@.take(c as int));
        assert(changes@.take(c + 1).last() == changes@[c as int]);
        push_change_line(out, &changes[c], terminated, hint);
        c = c + 1;
    }
    assert(changes@.take(changes@.len() as int) =~= changes@);
    assert(out@ =~= before + hunk_text(group@, old_tokens@, new_tokens@, terminated, hint));
}

/// A unified diff in the making: the diff, and how it is to be written.
pub struct UnifiedDiff<'d, 'a> {
    pub diff: &'d TextDiff<'a>,
    pub context_radius: usize,
    pub missing_newline_hint: bool,
    pub header: Option<(Vec<u8>, Vec<u8>)>,
}

/// The names of the header, as bytes.
pub open spec fn header_view(header: Option<(Vec<u8>, Vec<u8>)>) -> Option<(Seq<u8>, Seq<u8>)> {
    match header {
        Some(names) => Some((names.0@, names.1@)),
        None => None,
    }
}

impl<'d, 'a> UnifiedDiff<'d, 'a> {
    /// The unified diff of `diff` with three tokens of context, the notice
    /// of a missing line terminator, and no header.
    pub fn from_text_diff(diff: &'d TextDiff<'a>) -> (r: Self)
        ensures
            r.diff == diff,
            r.context_radius == 3,
            r.missing_newline_hint,
            r.header is None,
    {
        UnifiedDiff { diff, context_radius: 3, missing_newline_hint: true, header: None }
    }

    /// Changes the number of tokens of context around the changes.
    pub fn context_radius(&mut self, n: usize) -> (r: &mut Self)
        ensures
            r.diff == old(self).diff,
            r.context_radius == n,
            r.missing_newline_hint == old(self).missing_newline_hint,
            r.header == old(self).header,
            *final(self) == *final(r),
    {
        self.context_radius = n;
        self
    }

    /// Sets the two names of the header.
    pub fn header(&mut self, old_name: &str, new_name: &str) -> (r: &mut Self)
        ensures
            r.diff == old(self).diff,
            r.context_radius == old(self).context_radius,
            r.missing_newline_hint == old(self).missing_newline_hint,
            header_view(r.header) == Some((old_name.spec_bytes(), new_name.spec_bytes())),
            *final(self) == *final(r),
    {
        self.header = Some((slice_to_vec(old_name.as_bytes()), slice_to_vec(new_name.as_bytes())));
        self
    }

    /// Says whether a token without a line terminator is followed by a notice.
    pub fn missing_newline_hint(&mut self, yes: bool) -> (r: &mut Self)
        ensures
            r.diff == old(self).diff,
            r.context_radius == old(self).context_radius,
            r.missing_newline_hint == yes,
            r.header == old(self).header,
            *final(self) == *final(r),
    {
        self.missing_newline_hint = yes;
        self
    }

    /// The text that the unified diff consists of.
    pub open spec fn text(&self) -> Seq<u8> {
        unified_text(
            self.diff.script(),
            self.diff.old_view(),
            self.diff.new_view(),
            self.diff.is_newline_terminated(),
            self.context_radius as int,
            self.missing_newline_hint,
            header_view(self.header),
        )
    }

    /// Writes the unified diff.
    pub fn render(&self) -> (out: Vec<u8>)
        ensures
            out@ == self.text(),
    {
        let ops = self.diff.ops();
        let old_tokens = self.diff.old_slices();
        let new_tokens = self.diff.new_slices();
        let terminated = self.diff.newline_terminated();
        let groups = self.diff.grouped_ops(self.context_radius);
        let ghost all = hunks(groups@);
        let ghost old_len = old_tokens@.len() as int;
        let ghost new_len = new_tokens@.len() as int;
        let ghost names = header_view(self.header);
        proof {
            assert forall|i: int| 0 <= i < ops@.len() implies op_in_range(
                #[trigger] ops@[i],
                old_len,
                new_len,
            ) by {
                lemma_starts_nonneg(ops@, 0, 0, old_len, new_len, i);
            }
            lemma_groups_in_range(
                ops@,
                self.context_radius as int,
                old_len,
                new_len,
                ops@.len() as int,
            );
            lemma_groups_keep_changes(ops@, self.context_radius as int, old_len, new_len);
        }
        let mut out: Vec<u8> = Vec::new();
        let mut started: bool = false;
        let mut k: usize = 0;
        while k < groups.len()
            invariant
                k <= groups@.len(),
                all == hunks(groups@),
                old_len == old_tokens@.len(),
                new_len == new_tokens@.len(),
                names == header_view(self.header),
                forall|i: int| 0 <= i < all.len() ==> all_in_range(#[trigger] all[i], old_len, new_len),
                forall|i: int| 0 <= i < all.len() ==> chained(#[trigger] all[i]),
                started == any_hunk(all, k as int),
                out@ == hunks_text(
                    all,
                    k as int,
                    old_tokens@,
                    new_tokens@,
                    terminated,
                    self.missing_newline_hint,
                    names,
                ),
            decreases groups@.len() - k,
        {
            let group = &groups[k];
            assert(all[k as int] == group@);
            if group.len() > 0 {
                if !started {
                    push_header(&mut out, &self.header);
                    started = true;
                }
                push_hunk(
                    &mut out,
                    group,
                    old_tokens,
                    new_tokens,
                    terminated,
                    self.missing_newline_hint,
                );
            }
            k = k + 1;
        }
        out
    }

    /// The unified diff as a string; it is the text itself where that is UTF-8.
    pub fn to_string(&self) -> (r: String)
        ensures
            vstd::utf8::valid_utf8(self.text()) ==> r@ == vstd::utf8::decode_utf8(self.text()),
    {
        let bytes = self.render();
        lossy_string(bytes.as_slice())
    }
}

/// `String::from_utf8_lossy` of std: bytes that are UTF-8 come back as the
/// string that they encode; other bytes are replaced, which the contract
/// leaves open.
#[verifier::external_body]
pub(crate) fn lossy_string(bytes: &[u8]) -> (r: String)
    ensures
        vstd::utf8::valid_utf8(bytes@) ==> r@ == vstd::utf8::decode_utf8(bytes@),
{
    String::from_utf8_lossy(bytes).into_owned()
}

} // verus!
