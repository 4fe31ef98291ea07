//! The comparison of two files: keys, script, hunks, and the exit status.
use vstd::prelude::*;
use crate::conf::Conf;
use crate::edit::{exist_differences, has_change, lcs, lcs_of, seqs_view, DiffRecord};
use crate::hunked::{diff_output, display_diff_hunked};
use crate::select::{ambiguous, keys_of, Ambiguity, Selector};

verus! {

/// The script between the keys of two files.
pub open spec fn key_script(old_keys: Seq<Seq<u8>>, new_keys: Seq<Seq<u8>>) -> Seq<DiffRecord> {
    lcs_of(old_keys, new_keys)
}

/// What the comparison of two files by their keys writes: nothing when the
/// keys show no change, else the hunks, over the keys themselves when the
/// selected parts are to be displayed, over the lines otherwise.
pub open spec fn keyed_output(
    conf: Conf,
    old_lines: Seq<Seq<u8>>,
    new_lines: Seq<Seq<u8>>,
    old_keys: Seq<Seq<u8>>,
    new_keys: Seq<Seq<u8>>,
) -> Seq<u8> {
    let script = key_script(old_keys, new_keys);
    if !has_change(script) {
        Seq::empty()
    } else if conf.display_selected {
        diff_output(conf, old_keys, new_keys, script)
    } else {
        diff_output(conf, old_lines, new_lines, script)
    }
}

/// The exit status: 0 when the keys show no change, 1 otherwise.
pub open spec fn keyed_status(old_keys: Seq<Seq<u8>>, new_keys: Seq<Seq<u8>>) -> i32 {
    if has_change(key_script(old_keys, new_keys)) { 1 } else { 0 }
}

/// Compares two files line by line through their keys and writes the hunks.
pub fn diff_keys(
    out: &mut Vec<u8>,
    conf: &Conf,
    old_lines: &Vec<Vec<u8>>,
    new_lines: &Vec<Vec<u8>>,
    old_keys: &Vec<Vec<u8>>,
    new_keys: &Vec<Vec<u8>>,
) -> (r: i32)
    requires
        old_keys@.len() == old_lines@.len(),
        new_keys@.len() == new_lines@.len(),
    ensures
        r == keyed_status(seqs_view(old_keys@), seqs_view(new_keys@)),
        final(out)@ == old(out)@ + keyed_output(
            *conf,
            seqs_view(old_lines@),
            seqs_view(new_lines@),
            seqs_view(old_keys@),
            seqs_view(new_keys@),
        ),
{
    let diff = lcs(old_keys.as_slice(), new_keys.as_slice());
    if !exist_differences(&diff) {
        assert(out@ =~= old(out)@ + Seq::<u8>::empty());
        return 0;
    }
    if conf.display_selected {
        display_diff_hunked(out, conf, old_keys, new_keys, diff)
    } else {
        display_diff_hunked(out, conf, old_lines, new_lines, diff)
    }
}

/// Compares two files: projects every line through the selector, then
/// writes the hunks for the keys' script. A line that several of the
/// selector's patterns match is an error, and nothing is written.
pub fn diff_lines(
    out: &mut Vec<u8>,
    conf: &Conf,
    sel: &Selector,
    old_lines: &Vec<Vec<u8>>,
    new_lines: &Vec<Vec<u8>>,
) -> (r: Result<i32, Ambiguity>)
    requires
        sel.wf(),
    ensures
        r is Err == ((exists|i: int| 0 <= i < old_lines@.len() && ambiguous(sel.patterns(), #[trigger] old_lines@[i]@))
            || (exists|i: int| 0 <= i < new_lines@.len() && ambiguous(sel.patterns(), #[trigger] new_lines@[i]@))),
        r matches Ok(c) ==> c == keyed_status(
            keys_of(sel.patterns(), sel.ignore_pattern(), seqs_view(old_lines@)),
            keys_of(sel.patterns(), sel.ignore_pattern(), seqs_view(new_lines@)),
        ),
        r is Ok ==> final(out)@ == old(out)@ + keyed_output(
            *conf,
            seqs_view(old_lines@),
            seqs_view(new_lines@),
            keys_of(sel.patterns(), sel.ignore_pattern(), seqs_view(old_lines@)),
            keys_of(sel.patterns(), sel.ignore_pattern(), seqs_view(new_lines@)),
        ),
        r is Err ==> final(out)@ == old(out)@,
{
    let old_keys = match sel.pick_lines(old_lines) {
        Ok(k) => k,
        Err(e) => {
            return Err(e);
        },
    };
    let new_keys = match sel.pick_lines(new_lines) {
        Ok(k) => k,
        Err(e) => {
            return Err(e);
        },
    };
    assert(seqs_view(old_keys@).len() == old_keys@.len());
    assert(seqs_view(new_keys@).len() == new_keys@.len());
    let code = diff_keys(out, conf, old_lines, new_lines, &old_keys, &new_keys);
    Ok(code)
}

} // verus!
