//! Intra-line renderers for context lines that differ within: word-diff
//! notation and character-class summaries, and the atoms they work on.
use vstd::prelude::*;
use crate::conf::{CharacterClassExpansion, Conf};
use crate::edit::{seqs_view, Edit, EditKind};
use crate::hunked::Hunk;

verus! {

/// Appends the bytes.
pub fn write_bytes(out: &mut Vec<u8>, b: &[u8])
    ensures
        final(out)@ == old(out)@ + b@,
{
    let ghost start = out@;
    let mut i: usize = 0;
    while i < b.len()
        invariant
            0 <= i <= b@.len(),
            out@ =~= start + b@.take(i as int),
        decreases b@.len() - i,
    {
        out.push(b[i]);
        assert(b@.take(i as int + 1) =~= b@.take(i as int).push(b@[i as int]));
        i = i + 1;
    }
    assert(b@.take(i as int) =~= b@);
}

/// The decimal digits of `n`.
pub open spec fn dec(n: nat) -> Seq<u8>
    decreases n,
{
    if n < 10 {
        seq![(48 + n) as u8]
    } else {
        dec(n / 10).push((48 + n % 10) as u8)
    }
}

/// Appends `n` in decimal.
pub fn write_decimal(out: &mut Vec<u8>, n: usize)
    ensures
        final(out)@ == old(out)@ + dec(n as nat),
    decreases n,
{
    if n >= 10 {
        write_decimal(out, n / 10);
    }
    out.push((48 + n % 10) as u8);
    assert(final(out)@ =~= old(out)@ + dec(n as nat)) by {
        if n >= 10 {
            assert(old(out)@ + dec(n as nat) =~= (old(out)@ + dec((n / 10) as nat)).push((48 + n % 10) as u8));
        }
    }
}

/// All the atoms, one after the other.
pub open spec fn concat(s: Seq<Seq<u8>>) -> Seq<u8>
    decreases s.len(),
{
    if s.len() == 0 {
        Seq::empty()
    } else {
        concat(s.drop_last()) + s.last()
    }
}

/// A coarse class of bytes, used to summarise a run of changed atoms.
#[derive(Clone, Copy, PartialEq, Eq, Debug, Structural)]
pub enum CharacterClass {
    White,
    Digit,
    Alpha,
    /// Letters and digits.
    Word,
    Any,
}

/// The class of a byte: ASCII letters, ASCII digits, ASCII white space, or any.
pub open spec fn byte_class(b: u8) -> CharacterClass {
    if (65 <= b && b <= 90) || (97 <= b && b <= 122) {
        CharacterClass::Alpha
    } else if 48 <= b && b <= 57 {
        CharacterClass::Digit
    } else if b == 32 || b == 9 || b == 10 || b == 12 || b == 13 {
        CharacterClass::White
    } else {
        CharacterClass::Any
    }
}

/// The class that covers both: letters and digits make a word, white space
/// or any with anything else gives any, equal classes stay.
pub open spec fn merge_spec(a: CharacterClass, b: CharacterClass) -> CharacterClass {
    match b {
        CharacterClass::White => if a == CharacterClass::White { CharacterClass::White } else { CharacterClass::Any },
        CharacterClass::Digit => match a {
            CharacterClass::Digit => CharacterClass::Digit,
            CharacterClass::Alpha | CharacterClass::Word => CharacterClass::Word,
            _ => CharacterClass::Any,
        },
        CharacterClass::Alpha => match a {
            CharacterClass::Alpha => CharacterClass::Alpha,
            CharacterClass::Digit | CharacterClass::Word => CharacterClass::Word,
            _ => CharacterClass::Any,
        },
        CharacterClass::Word => match a {
            CharacterClass::Alpha | CharacterClass::Digit | CharacterClass::Word => CharacterClass::Word,
            _ => CharacterClass::Any,
        },
        CharacterClass::Any => CharacterClass::Any,
    }
}

/// The class of an atom: its bytes' classes merged from the left; any for an empty atom.
pub open spec fn atom_class(s: Seq<u8>) -> CharacterClass
    decreases s.len(),
{
    if s.len() == 0 {
        CharacterClass::Any
    } else if s.len() == 1 {
        byte_class(s[0])
    } else {
        merge_spec(atom_class(s.drop_last()), byte_class(s.last()))
    }
}

/// Whether the class takes in the atom without widening.
pub open spec fn accepts_spec(c: CharacterClass, atom: Seq<u8>) -> bool {
    merge_spec(c, atom_class(atom)) == c
}

/// The symbol that stands for a class.
pub open spec fn class_symbol(c: CharacterClass) -> Seq<u8> {
    match c {
        CharacterClass::White => seq![92u8, 115u8],
        CharacterClass::Digit => seq![92u8, 100u8],
        CharacterClass::Alpha => seq![92u8, 97u8],
        CharacterClass::Word => seq![92u8, 119u8],
        CharacterClass::Any => seq![46u8],
    }
}

/// The class of one byte.
pub fn class_of_byte(b: u8) -> (r: CharacterClass)
    ensures
        r == byte_class(b),
{
    if (65 <= b && b <= 90) || (97 <= b && b <= 122) {
        CharacterClass::Alpha
    } else if 48 <= b && b <= 57 {
        CharacterClass::Digit
    } else if b == 32 || b == 9 || b == 10 || b == 12 || b == 13 {
        CharacterClass::White
    } else {
        CharacterClass::Any
    }
}

/// The class of an atom.
pub fn class_of_atom(s: &[u8]) -> (r: CharacterClass)
    ensures
        r == atom_class(s@),
{
    if s.len() == 0 {
        return CharacterClass::Any;
    }
    let mut cc = class_of_byte(s[0]);
    let mut i: usize = 1;
    assert(s@.take(1).drop_last() =~= Seq::<u8>::empty());
    while i < s.len()
        invariant
            1 <= i <= s@.len(),
            cc == atom_class(s@.take(i as int)),
        decreases s@.len() - i,
    {
        assert(s@.take(i as int + 1).drop_last() =~= s@.take(i as int));
        cc = cc.merge(&class_of_byte(s[i]));
        i = i + 1;
    }
    assert(s@.take(i as int) =~= s@);
    cc
}

impl CharacterClass {
    pub fn merge(&self, other: &Self) -> (r: Self)
        ensures
            r == merge_spec(*self, *other),
    {
        match other {
            CharacterClass::White => match self {
                CharacterClass::White => CharacterClass::White,
                _ => CharacterClass::Any,
            },
            CharacterClass::Digit => match self {
                CharacterClass::Digit => CharacterClass::Digit,
                CharacterClass::Alpha | CharacterClass::Word => CharacterClass::Word,
                _ => CharacterClass::Any,
            },
            CharacterClass::Alpha => match self {
                CharacterClass::Alpha => CharacterClass::Alpha,
                CharacterClass::Digit | CharacterClass::Word => CharacterClass::Word,
                _ => CharacterClass::Any,
            },
            CharacterClass::Word => match self {
                CharacterClass::Alpha | CharacterClass::Digit | CharacterClass::Word => CharacterClass::Word,
                _ => CharacterClass::Any,
            },
            CharacterClass::Any => CharacterClass::Any,
        }
    }

    pub fn accepts(&self, atom: &[u8]) -> (r: bool)
        ensures
            r == accepts_spec(*self, atom@),
    {
        let ncc = self.merge(&class_of_atom(atom));
        ncc == *self
    }

    /// Appends the class symbol: `\s`, `\d`, `\a`, `\w` or `.`.
    pub fn write(&self, out: &mut Vec<u8>)
        ensures
            final(out)@ == old(out)@ + class_symbol(*self),
    {
        let ghost start = out@;
        match self {
            CharacterClass::White => {
                out.push(92u8);
                out.push(115u8);
            },
            CharacterClass::Digit => {
                out.push(92u8);
                out.push(100u8);
            },
            CharacterClass::Alpha => {
                out.push(92u8);
                out.push(97u8);
            },
            CharacterClass::Word => {
                out.push(92u8);
                out.push(119u8);
            },
            CharacterClass::Any => {
                out.push(46u8);
            },
        }
        assert(out@ =~= start + class_symbol(*self));
    }
}

/// The atom that a record shows: the new one for an addition, the old one otherwise.
pub open spec fn atom_of(e: Edit, a: Seq<Seq<u8>>, b: Seq<Seq<u8>>) -> Seq<u8> {
    if e.kind == EditKind::Added { b[e.new_index as int] } else { a[e.old_index as int] }
}

/// The record's atom exists on the side it is read from.
pub open spec fn atom_ok(e: Edit, alen: nat, blen: nat) -> bool {
    if e.kind == EditKind::Added { (e.new_index as nat) < blen } else { (e.old_index as nat) < alen }
}

/// Every record's atom exists.
pub open spec fn atoms_ok(items: Seq<Edit>, alen: nat, blen: nat) -> bool {
    forall|i: int| 0 <= i < items.len() ==> #[trigger] atom_ok(items[i], alen, blen)
}

fn write_atom(out: &mut Vec<u8>, e: &Edit, a: &Vec<Vec<u8>>, b: &Vec<Vec<u8>>)
    requires
        atom_ok(*e, a@.len() as nat, b@.len() as nat),
    ensures
        final(out)@ == old(out)@ + atom_of(*e, seqs_view(a@), seqs_view(b@)),
{
    if e.kind == EditKind::Added {
        write_bytes(out, b[e.new_index].as_slice());
    } else {
        write_bytes(out, a[e.old_index].as_slice());
    }
}

/// What opens a block of records of the kind: `{+`, `{-`, or nothing for commons.
pub open spec fn open_mark(k: EditKind) -> Seq<u8> {
    match k {
        EditKind::Added => seq![123u8, 43u8],
        EditKind::Removed => seq![123u8, 45u8],
        EditKind::Common => Seq::empty(),
    }
}

/// What closes a block of records of the kind: `}`, or nothing for commons.
pub open spec fn close_mark(k: EditKind) -> Seq<u8> {
    if k == EditKind::Common { Seq::empty() } else { seq![125u8] }
}

/// The kind of the last record, common for none.
pub open spec fn last_kind(items: Seq<Edit>) -> EditKind {
    if items.len() == 0 { EditKind::Common } else { items.last().kind }
}

/// What wdiff writes for a record that follows one of kind `prev`: a block
/// is closed and another opened where the kind changes, then the atom.
pub open spec fn wdiff_piece(prev: EditKind, e: Edit, atom: Seq<u8>) -> Seq<u8> {
    if prev == e.kind { atom } else { close_mark(prev) + open_mark(e.kind) + atom }
}

/// The word-diff text of the records, before the last block is closed.
pub open spec fn wdiff_prefix(items: Seq<Edit>, a: Seq<Seq<u8>>, b: Seq<Seq<u8>>) -> Seq<u8>
    decreases items.len(),
{
    if items.len() == 0 {
        Seq::empty()
    } else {
        wdiff_prefix(items.drop_last(), a, b) + wdiff_piece(
            last_kind(items.drop_last()),
            items.last(),
            atom_of(items.last(), a, b),
        )
    }
}

/// The word-diff rendering: additions in `{+…}`, removals in `{-…}`, commons bare.
pub open spec fn wdiff_spec(items: Seq<Edit>, a: Seq<Seq<u8>>, b: Seq<Seq<u8>>) -> Seq<u8> {
    wdiff_prefix(items, a, b) + close_mark(last_kind(items))
}

fn write_open(out: &mut Vec<u8>, k: EditKind)
    ensures
        final(out)@ == old(out)@ + open_mark(k),
{
    let ghost start = out@;
    match k {
        EditKind::Added => {
            out.push(123u8);
            out.push(43u8);
        },
        EditKind::Removed => {
            out.push(123u8);
            out.push(45u8);
        },
        EditKind::Common => {},
    }
    assert(out@ =~= start + open_mark(k));
}

fn write_close(out: &mut Vec<u8>, k: EditKind)
    ensures
        final(out)@ == old(out)@ + close_mark(k),
{
    let ghost start = out@;
    if k != EditKind::Common {
        out.push(125u8);
    }
    assert(out@ =~= start + close_mark(k));
}

/// Renders the records of a hunk of atoms in word-diff notation.
pub fn intra_line_write_wdiff(
    hunk: &Hunk,
    _conf: &Conf,
    old_atoms: &Vec<Vec<u8>>,
    new_atoms: &Vec<Vec<u8>>,
    out: &mut Vec<u8>,
)
    requires
        atoms_ok(hunk.items@, old_atoms@.len() as nat, new_atoms@.len() as nat),
    ensures
        final(out)@ == old(out)@ + wdiff_spec(hunk.items@, seqs_view(old_atoms@), seqs_view(new_atoms@)),
{
    let ghost a = seqs_view(old_atoms@);
    let ghost b = seqs_view(new_atoms@);
    let ghost items = hunk.items@;
    let mut line: Vec<u8> = Vec::new();
    let mut state = EditKind::Common;
    let mut i: usize = 0;
    assert(items.take(0) =~= Seq::<Edit>::empty());
    while i < hunk.items.len()
        invariant
            0 <= i <= items.len(),
            items == hunk.items@,
            a == seqs_view(old_atoms@),
            b == seqs_view(new_atoms@),
            atoms_ok(items, old_atoms@.len() as nat, new_atoms@.len() as nat),
            state == last_kind(items.take(i as int)),
            line@ == wdiff_prefix(items.take(i as int), a, b),
        decreases items.len() - i,
    {
        let d = hunk.items[i];
        assert(atom_ok(items[i as int], old_atoms@.len() as nat, new_atoms@.len() as nat));
        let ghost before = line@;
        if state != d.kind {
            write_close(&mut line, state);
            write_open(&mut line, d.kind);
        }
        write_atom(&mut line, &d, old_atoms, new_atoms);
        state = d.kind;
        assert(items.take(i as int + 1).drop_last() =~= items.take(i as int));
        assert(line@ =~= before + wdiff_piece(last_kind(items.take(i as int)), d, atom_of(d, a, b)));
        i = i + 1;
    }
    assert(items.take(i as int) =~= items);
    write_close(&mut line, state);
    write_bytes(out, line.as_slice());
}

/// The atoms of the records `s..e`.
pub open spec fn atoms_between(items: Seq<Edit>, a: Seq<Seq<u8>>, b: Seq<Seq<u8>>, s: int, e: int) -> Seq<Seq<u8>> {
    Seq::new((e - s) as nat, |k: int| atom_of(items[s + k], a, b))
}

/// How many atoms at the end of `pre` the class takes in; none for the class any.
pub open spec fn accepted_suffix(c: CharacterClass, pre: Seq<Seq<u8>>) -> nat
    decreases pre.len(),
{
    if pre.len() == 0 || c == CharacterClass::Any || !accepts_spec(c, pre.last()) {
        0
    } else {
        1 + accepted_suffix(c, pre.drop_last())
    }
}

/// The narrow renderer between records: the class of the last change run
/// (`prev`), the commons held since (`pre`), and either the class still
/// absorbing commons to its right (`skip`) or, inside a run, its class (`cc`).
pub struct NarrowState {
    pub in_run: bool,
    pub prev: Option<CharacterClass>,
    pub pre: Seq<Seq<u8>>,
    pub skip: Option<CharacterClass>,
    pub cc: CharacterClass,
}

/// The narrow renderer outside a change run.
pub open spec fn narrow_collecting(prev: Option<CharacterClass>, pre: Seq<Seq<u8>>, skip: Option<CharacterClass>) -> NarrowState {
    NarrowState { in_run: false, prev, pre, skip, cc: CharacterClass::Any }
}

/// What ends a change run of class `cc`: the held commons that the class
/// does not absorb from the right, then the class symbol and `+`, unless the
/// previous run had the same class and nothing stands between them.
pub open spec fn narrow_emit(prev: Option<CharacterClass>, pre: Seq<Seq<u8>>, cc: CharacterClass) -> Seq<u8> {
    let keep = pre.len() - accepted_suffix(cc, pre);
    concat(pre.take(keep)) + if prev == Some(cc) && keep == 0 {
        Seq::empty()
    } else {
        class_symbol(cc) + seq![43u8]
    }
}

/// A common atom outside a run: absorbed while the last run's class takes it, else held.
pub open spec fn narrow_common(prev: Option<CharacterClass>, pre: Seq<Seq<u8>>, skip: Option<CharacterClass>, atom: Seq<u8>) -> NarrowState {
    match skip {
        Some(c) => if c != CharacterClass::Any && accepts_spec(c, atom) {
            narrow_collecting(prev, pre, skip)
        } else {
            narrow_collecting(prev, pre.push(atom), None)
        },
        None => narrow_collecting(prev, pre.push(atom), None),
    }
}

/// The narrow renderer's text and state after one more record.
pub open spec fn narrow_step(st: NarrowState, e: Edit, atom: Seq<u8>) -> (Seq<u8>, NarrowState) {
    if !st.in_run {
        if e.kind == EditKind::Common {
            (Seq::empty(), narrow_common(st.prev, st.pre, st.skip, atom))
        } else {
            (Seq::empty(), NarrowState { in_run: true, prev: st.prev, pre: st.pre, skip: None, cc: atom_class(atom) })
        }
    } else {
        if e.kind == EditKind::Common {
            (narrow_emit(st.prev, st.pre, st.cc), narrow_common(Some(st.cc), Seq::empty(), Some(st.cc), atom))
        } else {
            (Seq::empty(), NarrowState { cc: merge_spec(st.cc, atom_class(atom)), ..st })
        }
    }
}

/// The narrow renderer's text and state after the records.
pub open spec fn narrow_prefix(items: Seq<Edit>, a: Seq<Seq<u8>>, b: Seq<Seq<u8>>) -> (Seq<u8>, NarrowState)
    decreases items.len(),
{
    if items.len() == 0 {
        (Seq::empty(), narrow_collecting(None, Seq::empty(), None))
    } else {
        let (o, st) = narrow_prefix(items.drop_last(), a, b);
        let (o2, st2) = narrow_step(st, items.last(), atom_of(items.last(), a, b));
        (o + o2, st2)
    }
}

/// The narrow character-class rendering.
pub open spec fn narrow_spec(items: Seq<Edit>, a: Seq<Seq<u8>>, b: Seq<Seq<u8>>) -> Seq<u8> {
    let (o, st) = narrow_prefix(items, a, b);
    o + if st.in_run { narrow_emit(st.prev, st.pre, st.cc) } else { concat(st.pre) }
}

/// The wide renderer between records: inside a run, its class and the
/// removed and added byte counts.
pub struct WideState {
    pub in_run: bool,
    pub cc: CharacterClass,
    pub removed: nat,
    pub added: nat,
}

/// A count, held at the largest `usize`.
pub open spec fn capped(n: nat) -> nat {
    if n > usize::MAX { usize::MAX as nat } else { n }
}

/// The bytes that a removal takes away.
pub open spec fn removed_len(e: Edit, atom: Seq<u8>) -> nat {
    if e.kind == EditKind::Removed { atom.len() } else { 0 }
}

/// The bytes that an addition brings.
pub open spec fn added_len(e: Edit, atom: Seq<u8>) -> nat {
    if e.kind == EditKind::Added { atom.len() } else { 0 }
}

/// The class symbol, then `{N}` where as many bytes were added as removed, else `{R,A}`.
pub open spec fn wide_emit(st: WideState) -> Seq<u8> {
    class_symbol(st.cc) + if st.removed == st.added {
        seq![123u8] + dec(st.added) + seq![125u8]
    } else {
        seq![123u8] + dec(st.removed) + seq![44u8] + dec(st.added) + seq![125u8]
    }
}

/// The wide renderer's text and state after one more record.
pub open spec fn wide_step(st: WideState, e: Edit, atom: Seq<u8>) -> (Seq<u8>, WideState) {
    if e.kind == EditKind::Common {
        if st.in_run {
            (wide_emit(st) + atom, WideState { in_run: false, ..st })
        } else {
            (atom, st)
        }
    } else {
        if st.in_run {
            (Seq::empty(), WideState {
                in_run: true,
                cc: merge_spec(st.cc, atom_class(atom)),
                removed: capped(st.removed + removed_len(e, atom)),
                added: capped(st.added + added_len(e, atom)),
            })
        } else {
            (Seq::empty(), WideState {
                in_run: true,
                cc: atom_class(atom),
                removed: removed_len(e, atom),
                added: added_len(e, atom),
            })
        }
    }
}

/// The wide renderer's text and state after the records.
pub open spec fn wide_prefix(items: Seq<Edit>, a: Seq<Seq<u8>>, b: Seq<Seq<u8>>) -> (Seq<u8>, WideState)
    decreases items.len(),
{
    if items.len() == 0 {
        (Seq::empty(), WideState { in_run: false, cc: CharacterClass::Any, removed: 0, added: 0 })
    } else {
        let (o, st) = wide_prefix(items.drop_last(), a, b);
        let (o2, st2) = wide_step(st, items.last(), atom_of(items.last(), a, b));
        (o + o2, st2)
    }
}

/// The wide character-class rendering.
pub open spec fn wide_spec(items: Seq<Edit>, a: Seq<Seq<u8>>, b: Seq<Seq<u8>>) -> Seq<u8> {
    let (o, st) = wide_prefix(items, a, b);
    o + if st.in_run { wide_emit(st) } else { Seq::empty() }
}

/// The rendering that the expansion selects.
pub open spec fn cc_spec(expansion: CharacterClassExpansion, items: Seq<Edit>, a: Seq<Seq<u8>>, b: Seq<Seq<u8>>) -> Seq<u8> {
    match expansion {
        CharacterClassExpansion::Narrow => narrow_spec(items, a, b),
        CharacterClassExpansion::Wide => wide_spec(items, a, b),
    }
}

fn wide_do_differences(out: &mut Vec<u8>, cc: CharacterClass, removed: usize, added: usize)
    ensures
        final(out)@ == old(out)@ + wide_emit(WideState { in_run: true, cc, removed: removed as nat, added: added as nat }),
{
    let ghost start = out@;
    cc.write(out);
    out.push(123u8);
    if removed == added {
        write_decimal(out, added);
    } else {
        write_decimal(out, removed);
        out.push(44u8);
        write_decimal(out, added);
    }
    out.push(125u8);
    assert(out@ =~= start + wide_emit(WideState { in_run: true, cc, removed: removed as nat, added: added as nat }));
}

fn atom_len(e: &Edit, a: &Vec<Vec<u8>>, b: &Vec<Vec<u8>>) -> (r: usize)
    requires
        atom_ok(*e, a@.len() as nat, b@.len() as nat),
    ensures
        r == atom_of(*e, seqs_view(a@), seqs_view(b@)).len(),
{
    if e.kind == EditKind::Added { b[e.new_index].len() } else { a[e.old_index].len() }
}

fn atom_class_of(e: &Edit, a: &Vec<Vec<u8>>, b: &Vec<Vec<u8>>) -> (r: CharacterClass)
    requires
        atom_ok(*e, a@.len() as nat, b@.len() as nat),
    ensures
        r == atom_class(atom_of(*e, seqs_view(a@), seqs_view(b@))),
{
    if e.kind == EditKind::Added {
        class_of_atom(b[e.new_index].as_slice())
    } else {
        class_of_atom(a[e.old_index].as_slice())
    }
}

fn wide_render(items: &Vec<Edit>, a: &Vec<Vec<u8>>, b: &Vec<Vec<u8>>, out: &mut Vec<u8>)
    requires
        atoms_ok(items@, a@.len() as nat, b@.len() as nat),
    ensures
        final(out)@ == old(out)@ + wide_spec(items@, seqs_view(a@), seqs_view(b@)),
{
    let ghost av = seqs_view(a@);
    let ghost bv = seqs_view(b@);
    let mut in_run = false;
    let mut cc = CharacterClass::Any;
    let mut removed: usize = 0;
    let mut added: usize = 0;
    let mut i: usize = 0;
    assert(items@.take(0) =~= Seq::<Edit>::empty());
    while i < items.len()
        invariant
            0 <= i <= items@.len(),
            av == seqs_view(a@),
            bv == seqs_view(b@),
            atoms_ok(items@, a@.len() as nat, b@.len() as nat),
            out@ == old(out)@ + wide_prefix(items@.take(i as int), av, bv).0,
            wide_prefix(items@.take(i as int), av, bv).1 == (WideState { in_run, cc, removed: removed as nat, added: added as nat }),
        decreases items@.len() - i,
    {
        let d = items[i];
        assert(atom_ok(items@[i as int], a@.len() as nat, b@.len() as nat));
        assert(items@.take(i as int + 1).drop_last() =~= items@.take(i as int));
        let ghost before = out@;
        let ghost atom = atom_of(d, av, bv);
        if d.kind == EditKind::Common {
            if in_run {
                wide_do_differences(out, cc, removed, added);
                in_run = false;
            }
            write_atom(out, &d, a, b);
        } else {
            let len = atom_len(&d, a, b);
            let c = atom_class_of(&d, a, b);
            if in_run {
                cc = cc.merge(&c);
            } else {
                cc = c;
                removed = 0;
                added = 0;
                in_run = true;
            }
            if d.kind == EditKind::Removed {
                removed = removed.saturating_add(len);
            } else {
                added = added.saturating_add(len);
            }
        }
        assert(out@ =~= before + wide_step(wide_prefix(items@.take(i as int), av, bv).1, d, atom).0);
        i = i + 1;
    }
    assert(items@.take(i as int) =~= items@);
    if in_run {
        wide_do_differences(out, cc, removed, added);
    }
    assert(out@ =~= old(out)@ + wide_spec(items@, av, bv));
}

proof fn lemma_atoms_between_push(items: Seq<Edit>, a: Seq<Seq<u8>>, b: Seq<Seq<u8>>, s: int, e: int)
    requires
        0 <= s <= e,
    ensures
        atoms_between(items, a, b, s, e + 1) =~= atoms_between(items, a, b, s, e).push(atom_of(items[e], a, b)),
        atoms_between(items, a, b, s, e + 1).drop_last() =~= atoms_between(items, a, b, s, e),
{
}

/// Appends the atoms of the records `s..e`.
fn write_atoms(out: &mut Vec<u8>, items: &Vec<Edit>, a: &Vec<Vec<u8>>, b: &Vec<Vec<u8>>, s: usize, e: usize)
    requires
        s <= e <= items@.len(),
        atoms_ok(items@, a@.len() as nat, b@.len() as nat),
    ensures
        final(out)@ == old(out)@ + concat(atoms_between(items@, seqs_view(a@), seqs_view(b@), s as int, e as int)),
{
    let ghost av = seqs_view(a@);
    let ghost bv = seqs_view(b@);
    let mut m = s;
    assert(atoms_between(items@, av, bv, s as int, s as int) =~= Seq::<Seq<u8>>::empty());
    while m < e
        invariant
            s <= m <= e <= items@.len(),
            av == seqs_view(a@),
            bv == seqs_view(b@),
            atoms_ok(items@, a@.len() as nat, b@.len() as nat),
            out@ == old(out)@ + concat(atoms_between(items@, av, bv, s as int, m as int)),
        decreases e - m,
    {
        assert(atom_ok(items@[m as int], a@.len() as nat, b@.len() as nat));
        proof {
            lemma_atoms_between_push(items@, av, bv, s as int, m as int);
        }
        write_atom(out, &items[m], a, b);
        assert(out@ =~= old(out)@ + concat(atoms_between(items@, av, bv, s as int, m as int + 1)));
        m = m + 1;
    }
}

/// Writes what ends a change run of class `cc` whose held commons are the records `s..j`.
fn narrow_do_differences(
    out: &mut Vec<u8>,
    items: &Vec<Edit>,
    a: &Vec<Vec<u8>>,
    b: &Vec<Vec<u8>>,
    prev: Option<CharacterClass>,
    s: usize,
    j: usize,
    cc: CharacterClass,
)
    requires
        s <= j <= items@.len(),
        atoms_ok(items@, a@.len() as nat, b@.len() as nat),
    ensures
        final(out)@ == old(out)@ + narrow_emit(prev, atoms_between(items@, seqs_view(a@), seqs_view(b@), s as int, j as int), cc),
{
    let ghost av = seqs_view(a@);
    let ghost bv = seqs_view(b@);
    let ghost pre = atoms_between(items@, av, bv, s as int, j as int);
    let mut k = j;
    let mut stop = false;
    while k > s && !stop
        invariant
            s <= k <= j <= items@.len(),
            av == seqs_view(a@),
            bv == seqs_view(b@),
            atoms_ok(items@, a@.len() as nat, b@.len() as nat),
            pre == atoms_between(items@, av, bv, s as int, j as int),
            accepted_suffix(cc, pre) == (j - k) + accepted_suffix(cc, atoms_between(items@, av, bv, s as int, k as int)),
            stop ==> accepted_suffix(cc, atoms_between(items@, av, bv, s as int, k as int)) == 0,
        decreases k + if stop { 0int } else { 1int },
    {
        assert(atom_ok(items@[k - 1], a@.len() as nat, b@.len() as nat));
        proof {
            lemma_atoms_between_push(items@, av, bv, s as int, k - 1);
        }
        let take = if cc == CharacterClass::Any {
            false
        } else if items[k - 1].kind == EditKind::Added {
            cc.accepts(b[items[k - 1].new_index].as_slice())
        } else {
            cc.accepts(a[items[k - 1].old_index].as_slice())
        };
        if take {
            k = k - 1;
        } else {
            stop = true;
        }
    }
    assert(accepted_suffix(cc, atoms_between(items@, av, bv, s as int, k as int)) == 0) by {
        if k == s {
            assert(atoms_between(items@, av, bv, s as int, k as int) =~= Seq::<Seq<u8>>::empty());
        }
    }
    assert(pre.take(k - s) =~= atoms_between(items@, av, bv, s as int, k as int));
    let ghost start = out@;
    write_atoms(out, items, a, b, s, k);
    let print = match prev {
        Some(p) => p != cc || k != s,
        None => true,
    };
    if print {
        cc.write(out);
        out.push(43u8);
    }
    assert(out@ =~= old(out)@ + narrow_emit(prev, pre, cc));
}

fn narrow_render(items: &Vec<Edit>, a: &Vec<Vec<u8>>, b: &Vec<Vec<u8>>, out: &mut Vec<u8>)
    requires
        atoms_ok(items@, a@.len() as nat, b@.len() as nat),
    ensures
        final(out)@ == old(out)@ + narrow_spec(items@, seqs_view(a@), seqs_view(b@)),
{
    let ghost av = seqs_view(a@);
    let ghost bv = seqs_view(b@);
    let mut in_run = false;
    let mut prev: Option<CharacterClass> = None;
    let mut skip: Option<CharacterClass> = None;
    let mut cc = CharacterClass::Any;
    let mut pre_start: usize = 0;
    let mut run_start: usize = 0;
    let mut i: usize = 0;
    assert(items@.take(0) =~= Seq::<Edit>::empty());
    assert(atoms_between(items@, av, bv, 0, 0) =~= Seq::<Seq<u8>>::empty());
    while i < items.len()
        invariant
            0 <= i <= items@.len(),
            av == seqs_view(a@),
            bv == seqs_view(b@),
            atoms_ok(items@, a@.len() as nat, b@.len() as nat),
            out@ == old(out)@ + narrow_prefix(items@.take(i as int), av, bv).0,
            ({
                let st = narrow_prefix(items@.take(i as int), av, bv).1;
                &&& st.in_run == in_run
                &&& st.prev == prev
                &&& pre_start <= run_start <= i
                &&& in_run ==> st.cc == cc
                &&& in_run ==> st.pre == atoms_between(items@, av, bv, pre_start as int, run_start as int)
                &&& !in_run ==> st.skip == skip
                &&& !in_run ==> st.pre == atoms_between(items@, av, bv, pre_start as int, i as int)
                &&& !in_run && skip.is_some() ==> pre_start == i
            }),
        decreases items@.len() - i,
    {
        let d = items[i];
        assert(atom_ok(items@[i as int], a@.len() as nat, b@.len() as nat));
        assert(items@.take(i as int + 1).drop_last() =~= items@.take(i as int));
        proof {
            lemma_atoms_between_push(items@, av, bv, pre_start as int, i as int);
            lemma_atoms_between_push(items@, av, bv, i as int, i as int);
        }
        assert(atoms_between(items@, av, bv, i as int + 1, i as int + 1) =~= Seq::<Seq<u8>>::empty());
        assert(atoms_between(items@, av, bv, i as int, i as int) =~= Seq::<Seq<u8>>::empty());
        let ghost before = out@;
        let ghost st = narrow_prefix(items@.take(i as int), av, bv).1;
        if d.kind == EditKind::Common {
            if in_run {
                narrow_do_differences(out, items, a, b, prev, pre_start, run_start, cc);
                prev = Some(cc);
                skip = Some(cc);
                pre_start = i;
                in_run = false;
            }
            let absorbed = match skip {
                Some(c) => c != CharacterClass::Any && c.accepts(a[d.old_index].as_slice()),
                None => false,
            };
            if absorbed {
                pre_start = i + 1;
            } else {
                skip = None;
            }
            run_start = i + 1;
        } else {
            let c = atom_class_of(&d, a, b);
            if in_run {
                cc = cc.merge(&c);
            } else {
                cc = c;
                run_start = i;
                in_run = true;
            }
        }
        assert(out@ =~= before + narrow_step(st, d, atom_of(d, av, bv)).0);
        i = i + 1;
    }
    assert(items@.take(i as int) =~= items@);
    if in_run {
        narrow_do_differences(out, items, a, b, prev, pre_start, run_start, cc);
    } else {
        write_atoms(out, items, a, b, pre_start, i);
    }
}

/// Renders the records of a hunk of atoms as character classes, narrow or wide.
pub fn intra_line_write_cc(
    hunk: &Hunk,
    expansion: CharacterClassExpansion,
    _conf: &Conf,
    old_atoms: &Vec<Vec<u8>>,
    new_atoms: &Vec<Vec<u8>>,
    out: &mut Vec<u8>,
)
    requires
        atoms_ok(hunk.items@, old_atoms@.len() as nat, new_atoms@.len() as nat),
    ensures
        final(out)@ == old(out)@ + cc_spec(expansion, hunk.items@, seqs_view(old_atoms@), seqs_view(new_atoms@)),
{
    match expansion {
        CharacterClassExpansion::Narrow => narrow_render(&hunk.items, old_atoms, new_atoms, out),
        CharacterClassExpansion::Wide => wide_render(&hunk.items, old_atoms, new_atoms, out),
    }
}

/// The pieces of a line cut at every word boundary.
pub uninterp spec fn word_split(line: Seq<u8>) -> Seq<Seq<u8>>;

/// Relies on `regex::bytes::Regex::split` with the pattern `\b`: the pieces
/// depend on the line alone, and as a word boundary matches only the empty
/// string, the pieces laid end to end give back the line.
#[verifier::external_body]
fn split_at_word_boundaries(line: &[u8]) -> (r: Vec<Vec<u8>>)
    ensures
        seqs_view(r@) == word_split(line@),
        concat(seqs_view(r@)) == line@,
{
    let re = regex::bytes::Regex::new(r"\b").unwrap();
    re.split(line).map(|w| w.to_vec()).collect()
}

/// The word atoms: a final piece that ends in a newline after other bytes
/// is cut in two, so that the newline stands alone.
pub open spec fn split_final_newline(w: Seq<Seq<u8>>) -> Seq<Seq<u8>> {
    if w.len() > 0 && w.last().len() > 1 && w.last().last() == 10u8 {
        w.drop_last().push(w.last().drop_last()).push(seq![10u8])
    } else {
        w
    }
}

/// Cuts a line into words at word boundaries, with the final newline as a word of its own.
pub fn tokenize(line: &[u8]) -> (r: Vec<Vec<u8>>)
    ensures
        seqs_view(r@) == split_final_newline(word_split(line@)),
        concat(seqs_view(r@)) == line@,
{
    let words = split_at_word_boundaries(line);
    proof {
        lemma_split_final_newline_concat(seqs_view(words@));
    }
    separate_final_newline(words)
}

/// Cutting the final newline off keeps the bytes laid end to end.
pub proof fn lemma_split_final_newline_concat(w: Seq<Seq<u8>>)
    ensures
        concat(split_final_newline(w)) == concat(w),
{
    if w.len() > 0 && w.last().len() > 1 && w.last().last() == 10u8 {
        let s = w.drop_last().push(w.last().drop_last()).push(seq![10u8]);
        assert(s.drop_last() =~= w.drop_last().push(w.last().drop_last()));
        assert(s.drop_last().drop_last() =~= w.drop_last());
        assert(w.last() =~= w.last().drop_last() + seq![10u8]);
        assert(s.last() == seq![10u8]);
        assert(s.drop_last().last() == w.last().drop_last());
        assert(concat(s.drop_last()) == concat(w.drop_last()) + w.last().drop_last());
        assert(concat(s) == concat(s.drop_last()) + seq![10u8]);
        assert(concat(w) == concat(w.drop_last()) + w.last());
        assert(concat(w.drop_last()) + w.last().drop_last() + seq![10u8] =~= concat(w.drop_last()) + w.last());
    }
}

/// Cuts a final piece that ends in a newline after other bytes in two.
pub fn separate_final_newline(words: Vec<Vec<u8>>) -> (r: Vec<Vec<u8>>)
    ensures
        seqs_view(r@) == split_final_newline(seqs_view(words@)),
{
    let mut words = words;
    let n = words.len();
    if n > 0 {
        let wlen = words[n - 1].len();
        if wlen > 1 && words[n - 1][wlen - 1] == 10u8 {
            let ghost w = seqs_view(words@);
            let mut last = words.pop().unwrap();
            last.pop();
            let mut nl: Vec<u8> = Vec::new();
            nl.push(10u8);
            words.push(last);
            words.push(nl);
            assert(last@ =~= w.last().drop_last());
            assert(nl@ =~= seq![10u8]);
            assert(seqs_view(words@) =~= w.drop_last().push(w.last().drop_last()).push(seq![10u8]));
        }
    }
    words
}

/// One atom per byte.
pub fn char_atoms(line: &[u8]) -> (r: Vec<Vec<u8>>)
    ensures
        seqs_view(r@) == Seq::new(line@.len(), |i: int| seq![line@[i]]),
{
    let mut r: Vec<Vec<u8>> = Vec::new();
    let mut i: usize = 0;
    while i < line.len()
        invariant
            0 <= i <= line@.len(),
            seqs_view(r@) =~= Seq::new(i as nat, |k: int| seq![line@[k]]),
        decreases line@.len() - i,
    {
        let mut one: Vec<u8> = Vec::new();
        one.push(line[i]);
        assert(one@ =~= seq![line@[i as int]]);
        let ghost before = r@;
        r.push(one);
        assert(seqs_view(r@) =~= seqs_view(before).push(one@));
        i = i + 1;
    }
    r
}

/// The atoms on the old side (`keep_added` false: commons and removals) or on
/// the new side (additions, and commons as written).
pub open spec fn side_of(items: Seq<Edit>, a: Seq<Seq<u8>>, b: Seq<Seq<u8>>, keep_added: bool) -> Seq<u8>
    decreases items.len(),
{
    if items.len() == 0 {
        Seq::empty()
    } else {
        let e = items.last();
        let shown = if keep_added { e.kind != EditKind::Removed } else { e.kind != EditKind::Added };
        side_of(items.drop_last(), a, b, keep_added) + if shown { atom_of(e, a, b) } else { Seq::empty() }
    }
}

/// The blocks of word-diff output: maximal runs of records of one kind,
/// each with its atoms laid end to end.
pub open spec fn wdiff_groups(items: Seq<Edit>, a: Seq<Seq<u8>>, b: Seq<Seq<u8>>) -> Seq<(EditKind, Seq<u8>)>
    decreases items.len(),
{
    if items.len() == 0 {
        Seq::empty()
    } else {
        let gs = wdiff_groups(items.drop_last(), a, b);
        let e = items.last();
        let atom = atom_of(e, a, b);
        if gs.len() > 0 && gs.last().0 == e.kind {
            gs.drop_last().push((e.kind, gs.last().1 + atom))
        } else {
            gs.push((e.kind, atom))
        }
    }
}

/// A block as written: commons bare, additions in `{+…}`, removals in `{-…}`.
pub open spec fn render_group(g: (EditKind, Seq<u8>)) -> Seq<u8> {
    open_mark(g.0) + g.1 + close_mark(g.0)
}

/// The blocks written one after the other.
pub open spec fn render_groups(gs: Seq<(EditKind, Seq<u8>)>) -> Seq<u8>
    decreases gs.len(),
{
    if gs.len() == 0 {
        Seq::empty()
    } else {
        render_groups(gs.drop_last()) + render_group(gs.last())
    }
}

/// The contents of the blocks that one side shows, laid end to end: with
/// `keep_added` false, added blocks are dropped and removed ones unwrapped;
/// with it true, the other way round.
pub open spec fn group_side(gs: Seq<(EditKind, Seq<u8>)>, keep_added: bool) -> Seq<u8>
    decreases gs.len(),
{
    if gs.len() == 0 {
        Seq::empty()
    } else {
        let g = gs.last();
        let shown = if keep_added { g.0 != EditKind::Removed } else { g.0 != EditKind::Added };
        group_side(gs.drop_last(), keep_added) + if shown { g.1 } else { Seq::empty() }
    }
}

/// Neighbouring blocks differ in kind.
pub open spec fn kinds_alternate(gs: Seq<(EditKind, Seq<u8>)>) -> bool {
    forall|i: int| 0 < i < gs.len() ==> gs[i - 1].0 != (#[trigger] gs[i]).0
}

proof fn lemma_groups_render(items: Seq<Edit>, a: Seq<Seq<u8>>, b: Seq<Seq<u8>>)
    ensures
        wdiff_groups(items, a, b).len() == 0 ==> wdiff_prefix(items, a, b) == Seq::<u8>::empty()
            && last_kind(items) == EditKind::Common,
        wdiff_groups(items, a, b).len() > 0 ==> wdiff_prefix(items, a, b) == render_groups(
            wdiff_groups(items, a, b).drop_last(),
        ) + open_mark(wdiff_groups(items, a, b).last().0) + wdiff_groups(items, a, b).last().1
            && last_kind(items) == wdiff_groups(items, a, b).last().0,
    decreases items.len(),
{
    if items.len() == 0 {
        assert(wdiff_prefix(items, a, b) =~= Seq::<u8>::empty());
    } else {
        let pre = items.drop_last();
        lemma_groups_render(pre, a, b);
        let gs = wdiff_groups(pre, a, b);
        let e = items.last();
        let atom = atom_of(e, a, b);
        let ng = wdiff_groups(items, a, b);
        if gs.len() > 0 && gs.last().0 == e.kind {
            assert(ng.drop_last() =~= gs.drop_last());
            assert(wdiff_prefix(items, a, b) =~= render_groups(ng.drop_last()) + open_mark(ng.last().0) + ng.last().1);
        } else {
            assert(ng.drop_last() =~= gs);
            if gs.len() == 0 {
                assert(render_groups(gs) =~= Seq::<u8>::empty());
            } else {
                assert(render_groups(gs) == render_groups(gs.drop_last()) + render_group(gs.last()));
            }
            assert(wdiff_prefix(items, a, b) =~= render_groups(gs) + open_mark(e.kind) + atom);
        }
    }
}

proof fn lemma_groups_alternate(items: Seq<Edit>, a: Seq<Seq<u8>>, b: Seq<Seq<u8>>)
    ensures
        kinds_alternate(wdiff_groups(items, a, b)),
    decreases items.len(),
{
    if items.len() > 0 {
        let pre = items.drop_last();
        lemma_groups_alternate(pre, a, b);
        let gs = wdiff_groups(pre, a, b);
        let ng = wdiff_groups(items, a, b);
        assert forall|i: int| 0 < i < ng.len() implies ng[i - 1].0 != (#[trigger] ng[i]).0 by {
            if i < gs.len() {
                assert(gs[i - 1].0 != gs[i].0);
            }
        }
    }
}

proof fn lemma_groups_side(items: Seq<Edit>, a: Seq<Seq<u8>>, b: Seq<Seq<u8>>, k: bool)
    ensures
        group_side(wdiff_groups(items, a, b), k) == side_of(items, a, b, k),
    decreases items.len(),
{
    if items.len() > 0 {
        let pre = items.drop_last();
        lemma_groups_side(pre, a, b, k);
        let gs = wdiff_groups(pre, a, b);
        let e = items.last();
        let atom = atom_of(e, a, b);
        let ng = wdiff_groups(items, a, b);
        let shown = if k { e.kind != EditKind::Removed } else { e.kind != EditKind::Added };
        let add = if shown { atom } else { Seq::<u8>::empty() };
        if gs.len() > 0 && gs.last().0 == e.kind {
            let g = gs.last();
            assert(ng.drop_last() =~= gs.drop_last());
            assert(gs.drop_last().push(g) =~= gs);
            let old_add = if shown { g.1 } else { Seq::<u8>::empty() };
            assert(group_side(gs, k) == group_side(gs.drop_last(), k) + old_add);
            assert(group_side(ng, k) =~= group_side(gs, k) + add);
        } else {
            assert(ng.drop_last() =~= gs);
            assert(group_side(ng, k) =~= group_side(gs, k) + add);
        }
    }
}

/// Word-diff output is its own inverse, block by block: it is the blocks
/// of same-kind records written one after the other, neighbouring blocks
/// differ in kind, and dropping every `{+…}` block while unwrapping every
/// `{-…}` block gives the old side's atoms; the dual gives the new side's.
pub proof fn lemma_wdiff_groups(items: Seq<Edit>, a: Seq<Seq<u8>>, b: Seq<Seq<u8>>)
    ensures
        wdiff_spec(items, a, b) == render_groups(wdiff_groups(items, a, b)),
        kinds_alternate(wdiff_groups(items, a, b)),
        group_side(wdiff_groups(items, a, b), false) == side_of(items, a, b, false),
        group_side(wdiff_groups(items, a, b), true) == side_of(items, a, b, true),
{
    lemma_groups_render(items, a, b);
    lemma_groups_alternate(items, a, b);
    lemma_groups_side(items, a, b, false);
    lemma_groups_side(items, a, b, true);
    let gs = wdiff_groups(items, a, b);
    if gs.len() == 0 {
        assert(wdiff_spec(items, a, b) =~= Seq::<u8>::empty());
    } else {
        assert(wdiff_spec(items, a, b) =~= render_groups(gs));
    }
}

} // verus!
