//! Path normalization and keying, device names, timestamps and byte counts.
//!
//! Paths are modelled as sequences of characters. A *candidate path* keeps
//! its case and its components and only gets one leading separator; a *key*
//! is the canonical, case-folded form under which the index stores a node.

use vstd::prelude::*;
use crate::text::{
    ascii_upper, chars_of, decimal, decimal_digits, is_ascii_char, is_ascii_letter, lowercase_of,
    push_all, same_chars, string_from, string_of, to_ascii_upper, to_lowercase,
};

verus! {

/// The key of the root directory: a single separator.
pub open spec fn root_key() -> Seq<char> {
    seq!['\\']
}

/// The component `.`.
pub open spec fn dot() -> Seq<char> {
    seq!['.']
}

/// The component `..`.
pub open spec fn dotdot() -> Seq<char> {
    seq!['.', '.']
}

/// `s` with every forward slash turned into a backslash.
pub open spec fn backslashed(s: Seq<char>) -> Seq<char> {
    Seq::new(s.len(), |i: int| if s[i] == '/' { '\\' } else { s[i] })
}

/// Whether `s` begins with the four characters `a b c d`.
pub open spec fn begins4(s: Seq<char>, a: char, b: char, c: char, d: char) -> bool {
    s.len() >= 4 && s[0] == a && s[1] == b && s[2] == c && s[3] == d
}

/// Whether `s` begins with one of the device prefixes `\??\`, `\\?\`, `\\.\`.
pub open spec fn has_device_prefix(s: Seq<char>) -> bool {
    begins4(s, '\\', '?', '?', '\\') || begins4(s, '\\', '\\', '?', '\\') || begins4(
        s,
        '\\',
        '\\',
        '.',
        '\\',
    )
}

/// `s` without one leading device prefix.
pub open spec fn without_device_prefix(s: Seq<char>) -> Seq<char> {
    if has_device_prefix(s) {
        s.skip(4)
    } else {
        s
    }
}

/// `s` without every leading repetition of the prefix `a b c d`.
pub open spec fn trimmed4(s: Seq<char>, a: char, b: char, c: char, d: char) -> Seq<char>
    decreases s.len(),
{
    if begins4(s, a, b, c, d) {
        trimmed4(s.skip(4), a, b, c, d)
    } else {
        s
    }
}

/// `s` without the device prefix it begins with, however often that same
/// prefix is repeated.
pub open spec fn without_device_prefixes(s: Seq<char>) -> Seq<char> {
    if begins4(s, '\\', '?', '?', '\\') {
        trimmed4(s, '\\', '?', '?', '\\')
    } else if begins4(s, '\\', '\\', '?', '\\') {
        trimmed4(s, '\\', '\\', '?', '\\')
    } else if begins4(s, '\\', '\\', '.', '\\') {
        trimmed4(s, '\\', '\\', '.', '\\')
    } else {
        s
    }
}

/// Whether `s` begins like `X:\`, with any ASCII character for `X`.
pub open spec fn has_bare_drive(s: Seq<char>) -> bool {
    s.len() >= 3 && is_ascii_char(s[0]) && s[1] == ':' && s[2] == '\\'
}

/// `X:\rest` becomes `\rest`.
pub open spec fn without_bare_drive(s: Seq<char>) -> Seq<char> {
    if has_bare_drive(s) {
        s.skip(2)
    } else {
        s
    }
}

/// Whether `s` begins like `\X:\`, with any ASCII character for `X`.
pub open spec fn has_rooted_drive(s: Seq<char>) -> bool {
    s.len() >= 4 && s[0] == '\\' && is_ascii_char(s[1]) && s[2] == ':' && s[3] == '\\'
}

/// `\X:\rest` becomes `\rest`.
pub open spec fn without_rooted_drive(s: Seq<char>) -> Seq<char> {
    if has_rooted_drive(s) {
        s.skip(3)
    } else {
        s
    }
}

/// `s` with a separator put in front unless it begins with one.
pub open spec fn rooted(s: Seq<char>) -> Seq<char> {
    if s.len() > 0 && s[0] == '\\' {
        s
    } else {
        seq!['\\'] + s
    }
}

/// `s` with a run of leading separators cut down to one.
pub open spec fn single_lead(s: Seq<char>) -> Seq<char>
    decreases s.len(),
{
    if s.len() >= 2 && s[0] == '\\' && s[1] == '\\' {
        single_lead(s.skip(1))
    } else {
        s
    }
}

/// The candidate path for the raw path `raw`: backslashes only, device and
/// drive prefixes gone, exactly one leading separator. Case and components
/// are kept as they are.
pub open spec fn candidate_path_of(raw: Seq<char>) -> Seq<char> {
    single_lead(
        rooted(
            without_rooted_drive(without_bare_drive(without_device_prefixes(backslashed(raw)))),
        ),
    )
}

/// The pieces of `s` between separators, empty ones included. A text of
/// `n` separators has `n + 1` pieces.
pub open spec fn split(s: Seq<char>) -> Seq<Seq<char>>
    decreases s.len(),
{
    if s.len() == 0 {
        seq![Seq::<char>::empty()]
    } else {
        let init = split(s.drop_last());
        if s.last() == '\\' {
            init.push(Seq::<char>::empty())
        } else {
            init.drop_last().push(init.last().push(s.last()))
        }
    }
}

/// The component stack after `c` is read: empty components and `.` change
/// nothing, `..` removes the top if there is one, anything else is pushed.
pub open spec fn resolve_step(stack: Seq<Seq<char>>, c: Seq<char>) -> Seq<Seq<char>> {
    if c.len() == 0 || c == dot() {
        stack
    } else if c == dotdot() {
        if stack.len() > 0 {
            stack.drop_last()
        } else {
            stack
        }
    } else {
        stack.push(c)
    }
}

/// The component stack after all of `comps` are read, from the first on.
pub open spec fn resolve(comps: Seq<Seq<char>>) -> Seq<Seq<char>>
    decreases comps.len(),
{
    if comps.len() == 0 {
        Seq::<Seq<char>>::empty()
    } else {
        resolve_step(resolve(comps.drop_last()), comps.last())
    }
}

/// Each of `comps` with a separator in front, one after the other.
pub open spec fn join(comps: Seq<Seq<char>>) -> Seq<char>
    decreases comps.len(),
{
    if comps.len() == 0 {
        Seq::<char>::empty()
    } else {
        join(comps.drop_last()) + seq!['\\'] + comps.last()
    }
}

/// Whether `c` holds neither kind of slash.
pub open spec fn no_separator(c: Seq<char>) -> bool {
    forall|i: int| 0 <= i < c.len() ==> c[i] != '\\' && c[i] != '/'
}

/// Whether `c` can stand as a component of a key: not empty, free of
/// slashes, and neither `.` nor `..`.
pub open spec fn is_plain_component(c: Seq<char>) -> bool {
    c.len() > 0 && no_separator(c) && c != dot() && c != dotdot()
}

/// The case-folded form of the component `c`: its lowercase form, provided
/// that form is again a plain component and lowercasing leaves it as it is;
/// otherwise `c` itself.
pub open spec fn fold_case(c: Seq<char>) -> Seq<char> {
    let low = lowercase_of(c);
    if is_plain_component(low) && lowercase_of(low) == low {
        low
    } else {
        c
    }
}

/// Every component of `comps` case-folded.
pub open spec fn folded(comps: Seq<Seq<char>>) -> Seq<Seq<char>> {
    Seq::new(comps.len(), |i: int| fold_case(comps[i]))
}

/// The components that remain of `raw` in its key, in the case they came in:
/// slashes unified, one device prefix and the drive prefixes gone, empty
/// components and `.` dropped, `..` resolved without leaving the root.
pub open spec fn key_components(raw: Seq<char>) -> Seq<Seq<char>> {
    resolve(
        split(without_rooted_drive(without_bare_drive(without_device_prefix(backslashed(raw))))),
    )
}

/// The key that one pass makes of the raw path `raw`: the root key where no
/// component remains, else the case-folded components, each behind a
/// separator. Such a key can begin with a device prefix or a drive again.
pub open spec fn single_key(raw: Seq<char>) -> Seq<char> {
    let comps = key_components(raw);
    if comps.len() == 0 {
        root_key()
    } else {
        join(folded(comps))
    }
}

/// Whether `k` begins with something that normalization takes away: a
/// device prefix or a drive.
pub open spec fn has_key_prefix(k: Seq<char>) -> bool {
    has_device_prefix(k) || has_bare_drive(k) || has_rooted_drive(k)
}

/// The key `k` passed again and again until it begins with no device
/// prefix and no drive. Each pass shortens such a key.
pub open spec fn settled(k: Seq<char>) -> Seq<char>
    decreases k.len(),
{
    if has_key_prefix(k) && single_key(k).len() < k.len() {
        settled(single_key(k))
    } else {
        k
    }
}

/// The key of the raw path `raw`: what one pass makes of it, passed again
/// until no device prefix and no drive is left at its beginning.
pub open spec fn key_of(raw: Seq<char>) -> Seq<char> {
    settled(single_key(raw))
}

/// The texts held by a vector of character vectors.
pub open spec fn texts(v: Seq<Vec<char>>) -> Seq<Seq<char>> {
    Seq::new(v.len(), |i: int| v[i]@)
}

/// A copy of `p` with forward slashes turned into backslashes.
fn with_backslashes(p: &Vec<char>) -> (out: Vec<char>)
    ensures
        out@ == backslashed(p@),
{
    let mut out: Vec<char> = Vec::new();
    let mut i: usize = 0;
    while i < p.len()
        invariant
            i <= p.len(),
            out@ == backslashed(p@).take(i as int),
        decreases p.len() - i,
    {
        let c = p[i];
        out.push(if c == '/' { '\\' } else { c });
        i += 1;
        assert(backslashed(p@).take(i as int) == backslashed(p@).take(i as int - 1).push(
            backslashed(p@)[i as int - 1],
        ));
    }
    assert(backslashed(p@).take(p.len() as int) == backslashed(p@));
    out
}

/// Whether `p[at..]` begins with the four characters `a b c d`.
fn begins4_at(p: &Vec<char>, at: usize, a: char, b: char, c: char, d: char) -> (r: bool)
    requires
        at <= p.len(),
    ensures
        r == begins4(p@.skip(at as int), a, b, c, d),
{
    p.len() - at >= 4 && p[at] == a && p[at + 1] == b && p[at + 2] == c && p[at + 3] == d
}

/// How many characters the drive prefixes take from the front of `p[at..]`.
fn drive_prefix_len(p: &Vec<char>, at: usize) -> (k: usize)
    requires
        at <= p.len(),
    ensures
        at + k <= p.len(),
        p@.skip(at + k) == without_rooted_drive(without_bare_drive(p@.skip(at as int))),
{
    let mut k: usize = 0;
    let ghost s = p@.skip(at as int);
    if p.len() - at >= 3 && (p[at] as u32) < 128 && p[at + 1] == ':' && p[at + 2] == '\\' {
        k = 2;
    }
    assert(p@.skip(at + k) == without_bare_drive(s)) by {
        assert(s.skip(k as int) == p@.skip(at + k));
        assert(s.skip(0) == s);
    }
    let ghost s2 = p@.skip(at + k);
    let at2: usize = at + k;
    if p.len() - at2 >= 4 && p[at2] == '\\' && (p[at2 + 1] as u32) < 128 && p[at2 + 2] == ':'
        && p[at2 + 3] == '\\' {
        assert(s2.skip(3) == p@.skip(at2 + 3));
        k = k + 3;
    }
    k
}

/// Reads the component `cur` onto the stack, as [`resolve_step`] says.
fn read_component(stack: &mut Vec<Vec<char>>, cur: Vec<char>)
    ensures
        texts(final(stack)@) == resolve_step(texts(old(stack)@), cur@),
{
    let ghost before = texts(stack@);
    let is_dot = cur.len() == 1 && cur[0] == '.';
    let is_dotdot = cur.len() == 2 && cur[0] == '.' && cur[1] == '.';
    assert(is_dot == (cur@ == dot())) by {
        if is_dot {
            assert(cur@ =~= dot());
        }
    }
    assert(is_dotdot == (cur@ == dotdot())) by {
        if is_dotdot {
            assert(cur@ =~= dotdot());
        }
    }
    if cur.len() == 0 || is_dot {
    } else if is_dotdot {
        if stack.len() > 0 {
            stack.pop();
            assert(texts(stack@) =~= before.drop_last());
        }
    } else {
        stack.push(cur);
        assert(texts(stack@) =~= before.push(cur@));
    }
}

/// `split` always yields at least one piece.
pub proof fn lemma_split_nonempty(s: Seq<char>)
    ensures
        split(s).len() >= 1,
    decreases s.len(),
{
    if s.len() > 0 {
        lemma_split_nonempty(s.drop_last());
    }
}

/// The components of `p[start..]`, resolved.
fn resolved_components(p: &Vec<char>, start: usize) -> (stack: Vec<Vec<char>>)
    requires
        start <= p.len(),
    ensures
        texts(stack@) == resolve(split(p@.skip(start as int))),
{
    let ghost t = p@.skip(start as int);
    let mut stack: Vec<Vec<char>> = Vec::new();
    let mut cur: Vec<char> = Vec::new();
    let mut i: usize = start;
    proof {
        assert(t.take(0) =~= Seq::<char>::empty());
        assert(split(t.take(0)) =~= seq![Seq::<char>::empty()]);
        assert(split(t.take(0)).drop_last() =~= Seq::<Seq<char>>::empty());
        assert(texts(stack@) =~= Seq::<Seq<char>>::empty());
    }
    while i < p.len()
        invariant
            start <= i <= p.len(),
            t == p@.skip(start as int),
            texts(stack@) == resolve(split(t.take(i - start)).drop_last()),
            cur@ == split(t.take(i - start)).last(),
        decreases p.len() - i,
    {
        let c = p[i];
        let ghost before = t.take(i - start);
        let ghost after = t.take(i - start + 1);
        proof {
            lemma_split_nonempty(before);
            assert(after.drop_last() =~= before);
            assert(after.last() == c);
        }
        if c == '\\' {
            proof {
                assert(split(after) == split(before).push(Seq::<char>::empty()));
                assert(split(after).drop_last() =~= split(before));
            }
            read_component(&mut stack, cur);
            cur = Vec::new();
        } else {
            cur.push(c);
            proof {
                assert(split(after).drop_last() =~= split(before).drop_last());
            }
        }
        i += 1;
    }
    proof {
        assert(t.take(i - start) =~= t);
        lemma_split_nonempty(t);
    }
    read_component(&mut stack, cur);
    stack
}

/// Whether `c` is a plain component.
fn plain_component(c: &Vec<char>) -> (r: bool)
    ensures
        r == is_plain_component(c@),
{
    if c.len() == 0 {
        return false;
    }
    if c.len() == 1 && c[0] == '.' {
        assert(c@ =~= dot());
        return false;
    }
    if c.len() == 2 && c[0] == '.' && c[1] == '.' {
        assert(c@ =~= dotdot());
        return false;
    }
    let mut i: usize = 0;
    while i < c.len()
        invariant
            i <= c.len(),
            forall|j: int| 0 <= j < i ==> c@[j] != '\\' && c@[j] != '/',
        decreases c.len() - i,
    {
        if c[i] == '\\' || c[i] == '/' {
            return false;
        }
        i += 1;
    }
    true
}

/// Case-folds one component, as [`fold_case`] says.
pub fn fold_component(c: &Vec<char>) -> (r: Vec<char>)
    ensures
        r@ == fold_case(c@),
{
    let text = string_of(c);
    let low = to_lowercase(text.as_str());
    let low_chars = chars_of(low.as_str());
    if plain_component(&low_chars) {
        let again = to_lowercase(low.as_str());
        let again_chars = chars_of(again.as_str());
        if same_chars(&again_chars, &low_chars) {
            return low_chars;
        }
    }
    let mut same: Vec<char> = Vec::new();
    push_all(&mut same, c);
    assert(same@ =~= c@);
    same
}

/// The key made of the resolved components `stack`.
fn key_from_components(stack: &Vec<Vec<char>>) -> (key: Vec<char>)
    ensures
        key@ == if stack.len() == 0 {
            root_key()
        } else {
            join(folded(texts(stack@)))
        },
{
    let mut out: Vec<char> = Vec::new();
    if stack.len() == 0 {
        out.push('\\');
        assert(out@ =~= root_key());
        return out;
    }
    let ghost comps = texts(stack@);
    let mut i: usize = 0;
    assert(folded(comps.take(0)) =~= Seq::<Seq<char>>::empty());
    while i < stack.len()
        invariant
            i <= stack.len(),
            comps == texts(stack@),
            out@ == join(folded(comps.take(i as int))),
        decreases stack.len() - i,
    {
        let f = fold_component(&stack[i]);
        proof {
            let next = folded(comps.take(i + 1));
            assert(next.drop_last() =~= folded(comps.take(i as int)));
            assert(next.last() == f@);
        }
        out.push('\\');
        push_all(&mut out, &f);
        i += 1;
        assert(out@ =~= join(folded(comps.take(i as int - 1))) + seq!['\\'] + f@);
    }
    assert(comps.take(stack.len() as int) =~= comps);
    out
}

/// The resolved components of the raw path `raw`, in the case they came in.
fn canonical_stack(raw: &Vec<char>) -> (stack: Vec<Vec<char>>)
    ensures
        texts(stack@) == key_components(raw@),
{
    let p = with_backslashes(raw);
    let mut start: usize = 0;
    assert(p@.skip(0) =~= p@);
    if begins4_at(&p, 0, '\\', '?', '?', '\\') || begins4_at(&p, 0, '\\', '\\', '?', '\\')
        || begins4_at(&p, 0, '\\', '\\', '.', '\\') {
        start = 4;
    }
    assert(p@.skip(start as int) == without_device_prefix(p@));
    let k = drive_prefix_len(&p, start);
    resolved_components(&p, start + k)
}

/// What one pass makes of the raw path `raw`.
fn one_pass(raw: &Vec<char>) -> (key: Vec<char>)
    ensures
        key@ == single_key(raw@),
{
    let stack = canonical_stack(raw);
    key_from_components(&stack)
}

/// Whether `k` begins with a device prefix or a drive.
fn begins_with_prefix(k: &Vec<char>) -> (r: bool)
    ensures
        r == has_key_prefix(k@),
{
    assert(k@.skip(0) =~= k@);
    let device = begins4_at(k, 0, '\\', '?', '?', '\\') || begins4_at(k, 0, '\\', '\\', '?', '\\')
        || begins4_at(k, 0, '\\', '\\', '.', '\\');
    let bare = k.len() >= 3 && (k[0] as u32) < 128 && k[1] == ':' && k[2] == '\\';
    let rooted = k.len() >= 4 && k[0] == '\\' && (k[1] as u32) < 128 && k[2] == ':' && k[3]
        == '\\';
    device || bare || rooted
}

/// The key of the characters `raw`.
pub fn key_chars(raw: &Vec<char>) -> (key: Vec<char>)
    ensures
        key@ == key_of(raw@),
{
    let mut key = one_pass(raw);
    let mut done = !begins_with_prefix(&key);
    while !done
        invariant
            settled(key@) == key_of(raw@),
            !done ==> has_key_prefix(key@),
            done ==> settled(key@) == key@,
        decreases key.len() + (if done { 0int } else { 1int }),
    {
        let next = one_pass(&key);
        if next.len() >= key.len() {
            done = true;
        } else {
            key = next;
            done = !begins_with_prefix(&key);
        }
    }
    key
}

/// The key under which the index stores the node at path `raw`.
pub fn normalize_and_canonicalize_for_key(raw: &str) -> (key: String)
    ensures
        key@ == key_of(raw@),
{
    string_of(&key_chars(&chars_of(raw)))
}

/// Every component on a resolved stack is one that was read, and none is
/// empty, `.` or `..`.
pub proof fn lemma_resolve_members(comps: Seq<Seq<char>>)
    ensures
        forall|i: int|
            0 <= i < resolve(comps).len() ==> {
                &&& (#[trigger] resolve(comps)[i]).len() > 0
                &&& resolve(comps)[i] != dot()
                &&& resolve(comps)[i] != dotdot()
                &&& comps.contains(resolve(comps)[i])
            },
    decreases comps.len(),
{
    if comps.len() > 0 {
        let init = comps.drop_last();
        lemma_resolve_members(init);
        assert forall|i: int| 0 <= i < resolve(comps).len() implies {
            &&& (#[trigger] resolve(comps)[i]).len() > 0
            &&& resolve(comps)[i] != dot()
            &&& resolve(comps)[i] != dotdot()
            &&& comps.contains(resolve(comps)[i])
        } by {
            if i < resolve(init).len() {
                let j = choose|j: int| 0 <= j < init.len() && init[j] == resolve(init)[i];
                assert(comps[j] == resolve(init)[i]);
            } else {
                assert(comps[comps.len() - 1] == comps.last());
            }
        }
    }
}

/// A joined text is at least as long as twice the number of its components
/// when none of them is empty.
pub proof fn lemma_join_len(comps: Seq<Seq<char>>)
    requires
        forall|i: int| 0 <= i < comps.len() ==> (#[trigger] comps[i]).len() > 0,
    ensures
        join(comps).len() >= 2 * comps.len(),
    decreases comps.len(),
{
    if comps.len() > 0 {
        lemma_join_len(comps.drop_last());
    }
}

/// A case-folded component is not empty unless the component was.
pub proof fn lemma_fold_case_nonempty(c: Seq<char>)
    requires
        c.len() > 0,
    ensures
        fold_case(c).len() > 0,
{
}

/// The key of a path is the root key exactly when none of its components
/// remains.
pub proof fn lemma_single_root_iff(raw: Seq<char>)
    ensures
        single_key(raw) == root_key() <==> key_components(raw).len() == 0,
{
    let comps = key_components(raw);
    if comps.len() > 0 {
        lemma_resolve_members(
            split(without_rooted_drive(without_bare_drive(without_device_prefix(backslashed(raw))))),
        );
        assert forall|i: int| 0 <= i < folded(comps).len() implies (#[trigger] folded(
            comps,
        )[i]).len() > 0 by {
            lemma_fold_case_nonempty(comps[i]);
        }
        lemma_join_len(folded(comps));
    }
}

/// Whether `raw` names the root of the tree.
pub fn is_root_key(raw: &str) -> (r: bool)
    ensures
        r == (key_of(raw@) == root_key()),
{
    let key = key_chars(&chars_of(raw));
    let r = key.len() == 1 && key[0] == '\\';
    proof {
        if r {
            assert(key@ =~= root_key());
        }
    }
    r
}

/// Where the repetitions of the prefix `a b c d` at `p[at..]` end.
fn trim4_at(p: &Vec<char>, at: usize, a: char, b: char, c: char, d: char) -> (end: usize)
    requires
        at <= p.len(),
    ensures
        at <= end <= p.len(),
        p@.skip(end as int) == trimmed4(p@.skip(at as int), a, b, c, d),
{
    let mut end: usize = at;
    while begins4_at(p, end, a, b, c, d)
        invariant
            at <= end <= p.len(),
            trimmed4(p@.skip(end as int), a, b, c, d) == trimmed4(p@.skip(at as int), a, b, c, d),
        decreases p.len() - end,
    {
        assert(p@.skip(end as int).skip(4) =~= p@.skip(end + 4));
        end += 4;
    }
    end
}

/// The candidate path of `raw`: the path as it is shown, with backslashes
/// only, without device and drive prefixes, behind exactly one separator.
pub fn normalize_candidate_path(raw: &str) -> (path: String)
    ensures
        path@ == candidate_path_of(raw@),
{
    let raw_chars = chars_of(raw);
    let p = with_backslashes(&raw_chars);
    assert(p@.skip(0) =~= p@);
    let start: usize = if begins4_at(&p, 0, '\\', '?', '?', '\\') {
        trim4_at(&p, 0, '\\', '?', '?', '\\')
    } else if begins4_at(&p, 0, '\\', '\\', '?', '\\') {
        trim4_at(&p, 0, '\\', '\\', '?', '\\')
    } else if begins4_at(&p, 0, '\\', '\\', '.', '\\') {
        trim4_at(&p, 0, '\\', '\\', '.', '\\')
    } else {
        0
    };
    assert(p@.skip(start as int) == without_device_prefixes(p@));
    let k = drive_prefix_len(&p, start);
    let at: usize = start + k;
    let ghost s = p@.skip(at as int);
    if at < p.len() && p[at] == '\\' {
        let mut j: usize = at;
        while j + 1 < p.len() && p[j + 1] == '\\'
            invariant
                at <= j < p.len(),
                p@[j as int] == '\\',
                single_lead(p@.skip(j as int)) == single_lead(s),
            decreases p.len() - j,
        {
            assert(p@.skip(j as int).skip(1) =~= p@.skip(j + 1));
            j += 1;
        }
        string_from(&p, j)
    } else {
        let mut out: Vec<char> = Vec::new();
        out.push('\\');
        let mut i: usize = at;
        while i < p.len()
            invariant
                at <= i <= p.len(),
                out@ == seq!['\\'] + p@.subrange(at as int, i as int),
            decreases p.len() - i,
        {
            out.push(p[i]);
            i += 1;
            assert(p@.subrange(at as int, i as int) == p@.subrange(at as int, i as int - 1).push(
                p@[i as int - 1],
            ));
        }
        assert(p@.subrange(at as int, p.len() as int) =~= s);
        string_of(&out)
    }
}

/// Why a drive designation names no device.
#[derive(Debug)]
pub enum DeviceError {
    /// Nothing but whitespace was given.
    Empty,
    /// The text is neither a drive letter, nor a letter with a colon, nor a
    /// device path; it is carried along, trimmed.
    Unsupported(String),
}

/// The device path for the drive designation `s`, which is already trimmed:
/// a device path stands for itself, a drive letter with or without its colon
/// becomes `\\.\X:` in upper case, anything else names no device.
pub open spec fn device_name_of(s: Seq<char>) -> Option<Seq<char>> {
    if s.len() == 0 {
        None
    } else if begins4(s, '\\', '\\', '.', '\\') || begins4(s, '\\', '\\', '?', '\\') {
        Some(s)
    } else if is_ascii_letter(s[0]) && (s.len() == 1 || (s.len() == 2 && s[1] == ':')) {
        Some(seq!['\\', '\\', '.', '\\', ascii_upper(s[0]), ':'])
    } else {
        None
    }
}

/// What `str::trim` returns for the text `s`.
pub uninterp spec fn trimmed_of(s: Seq<char>) -> Seq<char>;

/// Trusted: calls `str::trim`, which removes leading and trailing Unicode
/// whitespace. The contract only names the result.
#[verifier::external_body]
fn trim(s: &str) -> (r: &str)
    ensures
        r@ == trimmed_of(s@),
{
    s.trim()
}

/// The device path for a drive designation that carries no surrounding
/// whitespace.
pub fn device_for_trimmed(s: &str) -> (r: Result<String, DeviceError>)
    ensures
        match r {
            Ok(d) => device_name_of(s@) == Some(d@),
            Err(DeviceError::Empty) => s@.len() == 0,
            Err(DeviceError::Unsupported(t)) => s@.len() > 0 && device_name_of(s@) is None && t@
                == s@,
        },
{
    let p = chars_of(s);
    if p.len() == 0 {
        return Err(DeviceError::Empty);
    }
    assert(p@.skip(0) =~= p@);
    if begins4_at(&p, 0, '\\', '\\', '.', '\\') || begins4_at(&p, 0, '\\', '\\', '?', '\\') {
        return Ok(string_of(&p));
    }
    let c = p[0];
    let letter = (c >= 'a' && c <= 'z') || (c >= 'A' && c <= 'Z');
    if letter && (p.len() == 1 || (p.len() == 2 && p[1] == ':')) {
        let mut out: Vec<char> = Vec::new();
        out.push('\\');
        out.push('\\');
        out.push('.');
        out.push('\\');
        out.push(to_ascii_upper(c));
        out.push(':');
        assert(out@ =~= seq!['\\', '\\', '.', '\\', ascii_upper(c), ':']);
        return Ok(string_of(&out));
    }
    Err(DeviceError::Unsupported(string_of(&p)))
}

/// The device path for the drive designation `letter`, surrounding
/// whitespace ignored.
pub fn normalize_device(letter: &str) -> (r: Result<String, DeviceError>)
    ensures
        match r {
            Ok(d) => device_name_of(trimmed_of(letter@)) == Some(d@),
            Err(DeviceError::Empty) => trimmed_of(letter@).len() == 0,
            Err(DeviceError::Unsupported(t)) => trimmed_of(letter@).len() > 0 && device_name_of(
                trimmed_of(letter@),
            ) is None && t@ == trimmed_of(letter@),
        },
{
    device_for_trimmed(trim(letter))
}

/// A point in time, in whole seconds counted from the Unix epoch on.
#[derive(Clone, Copy, Debug, PartialEq, Eq, Structural)]
pub struct EpochTime {
    pub secs: u64,
}

/// The Unix epoch itself.
pub fn epoch() -> (t: EpochTime)
    ensures
        t.secs == 0,
{
    EpochTime { secs: 0 }
}

/// The point in time `ts` seconds after the Unix epoch; the epoch itself
/// where `ts` is not positive.
pub fn unix_ts_to_system_time(ts: i64) -> (t: EpochTime)
    ensures
        t.secs == if ts <= 0 {
            0
        } else {
            ts as int
        },
{
    if ts <= 0 {
        EpochTime { secs: 0 }
    } else {
        EpochTime { secs: ts as u64 }
    }
}

/// The index of the unit in which `b` bytes are shown: the largest of
/// B, KB, MB, GB, TB that does not exceed `b`, and B for less than 1 KB.
pub open spec fn unit_index(b: nat) -> nat {
    if b < 1024 {
        0
    } else if b < 1048576 {
        1
    } else if b < 1073741824 {
        2
    } else if b < 1099511627776 {
        3
    } else {
        4
    }
}

/// The number of bytes in the unit of index `i`: 1024 to the power `i`.
pub open spec fn unit_scale(i: nat) -> nat {
    if i == 0 {
        1
    } else if i == 1 {
        1024
    } else if i == 2 {
        1048576
    } else if i == 3 {
        1073741824
    } else {
        1099511627776
    }
}

/// The name of the unit of index `i`.
pub open spec fn unit_name(i: nat) -> Seq<char> {
    if i == 0 {
        seq!['B']
    } else if i == 1 {
        seq!['K', 'B']
    } else if i == 2 {
        seq!['M', 'B']
    } else if i == 3 {
        seq!['G', 'B']
    } else {
        seq!['T', 'B']
    }
}

/// How `b` bytes are shown: the whole number of units, a space, the unit.
pub open spec fn humanized(b: nat) -> Seq<char> {
    decimal(b / unit_scale(unit_index(b))) + seq![' '] + unit_name(unit_index(b))
}

/// Shows a byte count in the largest fitting unit, rounded down.
pub fn humanize_bytes(b: u64) -> (s: String)
    ensures
        s@ == humanized(b as nat),
{
    let mut value: u64 = b;
    let mut idx: usize = 0;
    while value >= 1024 && idx < 4
        invariant
            idx <= 4,
            value == (b as nat) / unit_scale(idx as nat),
            idx > 0 ==> (b as nat) >= unit_scale(idx as nat),
            idx < 4 ==> (value < 1024 <==> (b as nat) < unit_scale((idx + 1) as nat)),
        decreases 4 - idx,
    {
        value = value / 1024;
        idx += 1;
    }
    assert(idx as nat == unit_index(b as nat));
    let mut out = decimal_digits(value);
    out.push(' ');
    if idx == 0 {
        out.push('B');
    } else {
        out.push(
            if idx == 1 {
                'K'
            } else if idx == 2 {
                'M'
            } else if idx == 3 {
                'G'
            } else {
                'T'
            },
        );
        out.push('B');
    }
    assert(out@ =~= humanized(b as nat));
    string_of(&out)
}

/// The components of a path that are not empty.
pub open spec fn nonempty(comps: Seq<Seq<char>>) -> Seq<Seq<char>>
    decreases comps.len(),
{
    if comps.len() == 0 {
        Seq::<Seq<char>>::empty()
    } else if comps.last().len() == 0 {
        nonempty(comps.drop_last())
    } else {
        nonempty(comps.drop_last()).push(comps.last())
    }
}

/// The non-empty pieces of `p` between separators.
pub fn nonempty_components(p: &Vec<char>) -> (out: Vec<Vec<char>>)
    ensures
        texts(out@) == nonempty(split(p@)),
{
    let mut out: Vec<Vec<char>> = Vec::new();
    let mut cur: Vec<char> = Vec::new();
    let mut i: usize = 0;
    proof {
        assert(p@.take(0) =~= Seq::<char>::empty());
        assert(split(p@.take(0)) =~= seq![Seq::<char>::empty()]);
        assert(split(p@.take(0)).drop_last() =~= Seq::<Seq<char>>::empty());
        assert(texts(out@) =~= Seq::<Seq<char>>::empty());
    }
    while i < p.len()
        invariant
            i <= p.len(),
            texts(out@) == nonempty(split(p@.take(i as int)).drop_last()),
            cur@ == split(p@.take(i as int)).last(),
        decreases p.len() - i,
    {
        let c = p[i];
        let ghost before = p@.take(i as int);
        let ghost after = p@.take(i + 1);
        proof {
            lemma_split_nonempty(before);
            assert(after.drop_last() =~= before);
            assert(after.last() == c);
        }
        if c == '\\' {
            proof {
                assert(split(after).drop_last() =~= split(before));
            }
            if cur.len() > 0 {
                let ghost old_out = texts(out@);
                out.push(cur);
                assert(texts(out@) =~= old_out.push(split(before).last()));
            }
            cur = Vec::new();
        } else {
            cur.push(c);
            proof {
                assert(split(after).drop_last() =~= split(before).drop_last());
            }
        }
        i += 1;
    }
    proof {
        assert(p@.take(i as int) =~= p@);
        lemma_split_nonempty(p@);
    }
    if cur.len() > 0 {
        let ghost old_out = texts(out@);
        out.push(cur);
        assert(texts(out@) =~= old_out.push(split(p@).last()));
    }
    out
}

/// The root is its own key.
pub proof fn lemma_single_key_of_root()
    ensures
        single_key(root_key()) == root_key(),
{
    let r = root_key();
    assert(backslashed(r) =~= r);
    let e = Seq::<char>::empty();
    assert(r.drop_last() =~= e);
    assert(split(e) =~= seq![e]);
    assert(split(r) =~= seq![e, e]);
    let two = seq![e, e];
    assert(two.drop_last() =~= seq![e]);
    let none = Seq::<Seq<char>>::empty();
    assert(seq![e].drop_last() =~= none);
    assert(resolve(none) =~= none);
    assert(seq![e].last() == e);
    assert(resolve(seq![e]) == resolve_step(resolve(none), e));
    assert(two.last() == e);
    assert(resolve(two) == resolve_step(resolve(seq![e]), e));
}

/// The root is its own candidate path.
pub proof fn lemma_candidate_path_of_root()
    ensures
        candidate_path_of(root_key()) == root_key(),
{
    let r = root_key();
    assert(backslashed(r) =~= r);
}

/// Whether `c` holds no backslash.
pub open spec fn no_backslash(c: Seq<char>) -> bool {
    forall|i: int| 0 <= i < c.len() ==> c[i] != '\\'
}

/// Whether `c` holds no forward slash.
pub open spec fn no_slash(c: Seq<char>) -> bool {
    forall|i: int| 0 <= i < c.len() ==> c[i] != '/'
}

/// No piece of a split text holds a backslash, and none holds a forward
/// slash unless the text does.
pub proof fn lemma_split_pieces(s: Seq<char>)
    ensures
        forall|i: int| 0 <= i < split(s).len() ==> no_backslash(#[trigger] split(s)[i]),
        no_slash(s) ==> forall|i: int| 0 <= i < split(s).len() ==> no_slash(#[trigger] split(s)[i]),
    decreases s.len(),
{
    if s.len() > 0 {
        lemma_split_pieces(s.drop_last());
        lemma_split_nonempty(s.drop_last());
        let init = split(s.drop_last());
        assert forall|i: int| 0 <= i < split(s).len() implies no_backslash(
            #[trigger] split(s)[i],
        ) by {
            if i < init.len() - 1 {
                assert(split(s)[i] == init[i]);
            } else if s.last() != '\\' {
                assert(no_backslash(init[init.len() - 1]));
            }
        }
        if no_slash(s) {
            assert(no_slash(s.drop_last()));
            assert forall|i: int| 0 <= i < split(s).len() implies no_slash(
                #[trigger] split(s)[i],
            ) by {
                if i < init.len() - 1 {
                    assert(split(s)[i] == init[i]);
                } else if s.last() != '\\' {
                    assert(no_slash(init[init.len() - 1]));
                    assert(s.last() == s[s.len() - 1]);
                }
            }
        }
    }
}

/// Text without a backslash that follows a text only lengthens the last
/// piece.
pub proof fn lemma_split_append(a: Seq<char>, c: Seq<char>)
    requires
        no_backslash(c),
    ensures
        split(a + c) == split(a).drop_last().push(split(a).last() + c),
    decreases c.len(),
{
    lemma_split_nonempty(a);
    if c.len() == 0 {
        assert(a + c =~= a);
        assert(split(a).last() + c =~= split(a).last());
        assert(split(a).drop_last().push(split(a).last()) =~= split(a));
    } else {
        let c0 = c.drop_last();
        assert(no_backslash(c0));
        lemma_split_append(a, c0);
        assert((a + c).drop_last() =~= a + c0);
        assert((a + c).last() == c.last());
        assert(c.last() == c[c.len() - 1]);
        let init = split(a + c0);
        assert(init.last() == split(a).last() + c0);
        assert((split(a).last() + c0).push(c.last()) =~= split(a).last() + c);
        assert(init.drop_last() =~= split(a).drop_last());
    }
}

/// The pieces of joined components are an empty piece and the components,
/// provided that no component holds a backslash.
pub proof fn lemma_split_join(comps: Seq<Seq<char>>)
    requires
        forall|i: int| 0 <= i < comps.len() ==> no_backslash(#[trigger] comps[i]),
    ensures
        split(join(comps)) == seq![Seq::<char>::empty()] + comps,
    decreases comps.len(),
{
    let e = Seq::<char>::empty();
    if comps.len() == 0 {
        assert(split(join(comps)) =~= seq![e]);
        assert(seq![e] + comps =~= seq![e]);
    } else {
        let init = comps.drop_last();
        let last = comps.last();
        assert forall|i: int| 0 <= i < init.len() implies no_backslash(#[trigger] init[i]) by {
            assert(init[i] == comps[i]);
        }
        lemma_split_join(init);
        let a = join(init);
        let a1 = a.push('\\');
        assert(a1.drop_last() =~= a);
        assert(a1.last() == '\\');
        assert(split(a1) == split(a).push(e));
        assert(join(comps) =~= a1 + last);
        assert(no_backslash(last));
        lemma_split_append(a1, last);
        assert(split(a1).drop_last() =~= split(a));
        assert(e + last =~= last);
        assert(split(a).push(last) =~= seq![e] + comps);
    }
}

/// Reading an empty piece and plain components leaves the components on
/// the stack.
pub proof fn lemma_resolve_plain(comps: Seq<Seq<char>>)
    requires
        forall|i: int| 0 <= i < comps.len() ==> is_plain_component(#[trigger] comps[i]),
    ensures
        resolve(seq![Seq::<char>::empty()] + comps) == comps,
    decreases comps.len(),
{
    let e = Seq::<char>::empty();
    let all = seq![e] + comps;
    let none = Seq::<Seq<char>>::empty();
    if comps.len() == 0 {
        assert(all =~= seq![e]);
        assert(seq![e].drop_last() =~= none);
        assert(resolve(none) =~= none);
        assert(seq![e].last() == e);
        assert(resolve(seq![e]) == resolve_step(resolve(none), e));
        assert(comps =~= none);
    } else {
        let init = comps.drop_last();
        assert forall|i: int| 0 <= i < init.len() implies is_plain_component(
            #[trigger] init[i],
        ) by {
            assert(init[i] == comps[i]);
        }
        lemma_resolve_plain(init);
        assert(all.drop_last() =~= seq![e] + init);
        assert(all.last() == comps.last());
        assert(is_plain_component(comps[comps.len() - 1]));
        assert(init.push(comps.last()) =~= comps);
    }
}

/// Case-folding a case-folded component changes nothing.
pub proof fn lemma_fold_case_idempotent(c: Seq<char>)
    ensures
        fold_case(fold_case(c)) == fold_case(c),
{
}

/// A case-folded plain component is plain.
pub proof fn lemma_fold_case_plain(c: Seq<char>)
    requires
        is_plain_component(c),
    ensures
        is_plain_component(fold_case(c)),
{
}

/// The components that remain in a key are plain.
pub proof fn lemma_key_components_plain(raw: Seq<char>)
    ensures
        forall|i: int|
            0 <= i < key_components(raw).len() ==> is_plain_component(
                #[trigger] key_components(raw)[i],
            ),
{
    let b = backslashed(raw);
    let t = without_rooted_drive(without_bare_drive(without_device_prefix(b)));
    assert(no_slash(b));
    assert(no_slash(t));
    lemma_split_pieces(t);
    lemma_resolve_members(split(t));
    let r = resolve(split(t));
    assert forall|i: int| 0 <= i < r.len() implies is_plain_component(#[trigger] r[i]) by {
        assert(split(t).contains(r[i]));
        let j = choose|j: int| 0 <= j < split(t).len() && split(t)[j] == r[i];
        assert(no_backslash(split(t)[j]));
        assert(no_slash(split(t)[j]));
    }
}

/// Joined components begin with a separator and the first component.
pub proof fn lemma_join_begins(comps: Seq<Seq<char>>)
    requires
        comps.len() > 0,
    ensures
        join(comps).len() >= 1 + comps[0].len(),
        join(comps)[0] == '\\',
        forall|i: int| 0 <= i < comps[0].len() ==> join(comps)[1 + i] == comps[0][i],
    decreases comps.len(),
{
    if comps.len() == 1 {
        assert(comps.drop_last() =~= Seq::<Seq<char>>::empty());
        assert(join(comps.drop_last()) =~= Seq::<char>::empty());
        assert(join(comps) =~= seq!['\\'] + comps[0]);
    } else {
        lemma_join_begins(comps.drop_last());
        assert(comps.drop_last()[0] == comps[0]);
    }
}

/// Joined plain components hold no forward slash.
pub proof fn lemma_join_no_slash(comps: Seq<Seq<char>>)
    requires
        forall|i: int| 0 <= i < comps.len() ==> is_plain_component(#[trigger] comps[i]),
    ensures
        no_slash(join(comps)),
    decreases comps.len(),
{
    if comps.len() > 0 {
        let init = comps.drop_last();
        assert forall|i: int| 0 <= i < init.len() implies is_plain_component(
            #[trigger] init[i],
        ) by {
            assert(init[i] == comps[i]);
        }
        lemma_join_no_slash(init);
        assert(is_plain_component(comps[comps.len() - 1]));
    }
}

/// The folded components of a key are plain, and folding leaves each as
/// it is.
pub proof fn lemma_folded_components(raw: Seq<char>)
    ensures
        forall|i: int|
            0 <= i < key_components(raw).len() ==> {
                &&& is_plain_component(#[trigger] folded(key_components(raw))[i])
                &&& fold_case(folded(key_components(raw))[i]) == folded(key_components(raw))[i]
            },
{
    lemma_key_components_plain(raw);
    let r = key_components(raw);
    assert forall|i: int| 0 <= i < r.len() implies {
        &&& is_plain_component(#[trigger] folded(r)[i])
        &&& fold_case(folded(r)[i]) == folded(r)[i]
    } by {
        assert(is_plain_component(r[i]));
        lemma_fold_case_plain(r[i]);
        lemma_fold_case_idempotent(r[i]);
    }
}

/// Joining two lists of components one after the other joins their paths.
pub proof fn lemma_join_concat(a: Seq<Seq<char>>, b: Seq<Seq<char>>)
    ensures
        join(a + b) == join(a) + join(b),
    decreases b.len(),
{
    if b.len() == 0 {
        assert(a + b =~= a);
        assert(join(a) + join(b) =~= join(a));
    } else {
        lemma_join_concat(a, b.drop_last());
        assert((a + b).drop_last() =~= a + b.drop_last());
        assert((a + b).last() == b.last());
        assert(join(a + b) =~= join(a) + join(b));
    }
}

/// A joined path is a separator, the first component, and the path of the
/// other components, which is empty or begins with a separator.
pub proof fn lemma_join_head(comps: Seq<Seq<char>>)
    requires
        comps.len() > 0,
    ensures
        join(comps) == seq!['\\'] + comps[0] + join(comps.skip(1)),
        comps.len() == 1 ==> join(comps.skip(1)).len() == 0,
        comps.len() >= 2 ==> join(comps.skip(1)).len() > 0 && join(comps.skip(1))[0] == '\\',
{
    let one = seq![comps[0]];
    let rest = comps.skip(1);
    assert(comps =~= one + rest);
    lemma_join_concat(one, rest);
    assert(one.drop_last() =~= Seq::<Seq<char>>::empty());
    assert(join(one.drop_last()) =~= Seq::<char>::empty());
    assert(join(one) =~= seq!['\\'] + comps[0]);
    if comps.len() >= 2 {
        lemma_join_begins(rest);
    } else {
        assert(rest =~= Seq::<Seq<char>>::empty());
    }
}

/// Reading plain components leaves exactly them on the stack.
pub proof fn lemma_resolve_all_plain(comps: Seq<Seq<char>>)
    requires
        forall|i: int| 0 <= i < comps.len() ==> is_plain_component(#[trigger] comps[i]),
    ensures
        resolve(comps) == comps,
    decreases comps.len(),
{
    if comps.len() == 0 {
        assert(resolve(comps) =~= comps);
    } else {
        let init = comps.drop_last();
        assert forall|i: int| 0 <= i < init.len() implies is_plain_component(
            #[trigger] init[i],
        ) by {
            assert(init[i] == comps[i]);
        }
        lemma_resolve_all_plain(init);
        assert(is_plain_component(comps[comps.len() - 1]));
        assert(init.push(comps.last()) =~= comps);
    }
}

/// The pieces of a joined path without its leading separator are its
/// components, provided that none of them holds a backslash.
pub proof fn lemma_split_join_tail(comps: Seq<Seq<char>>)
    requires
        comps.len() > 0,
        forall|i: int| 0 <= i < comps.len() ==> no_backslash(#[trigger] comps[i]),
    ensures
        split(join(comps).skip(1)) == comps,
    decreases comps.len(),
{
    let e = Seq::<char>::empty();
    lemma_join_begins(comps);
    if comps.len() == 1 {
        assert(comps.drop_last() =~= Seq::<Seq<char>>::empty());
        assert(join(comps.drop_last()) =~= e);
        assert(join(comps).skip(1) =~= e + comps[0]);
        assert(no_backslash(comps[0]));
        lemma_split_append(e, comps[0]);
        assert(split(e) =~= seq![e]);
        assert(split(e).drop_last().push(split(e).last() + comps[0]) =~= comps);
    } else {
        let init = comps.drop_last();
        let last = comps.last();
        assert forall|i: int| 0 <= i < init.len() implies no_backslash(#[trigger] init[i]) by {
            assert(init[i] == comps[i]);
        }
        lemma_split_join_tail(init);
        lemma_join_begins(init);
        let a = join(init).skip(1);
        let a1 = a.push('\\');
        assert(a1.drop_last() =~= a);
        assert(a1.last() == '\\');
        assert(split(a1) == split(a).push(e));
        assert(join(comps).skip(1) =~= a1 + last);
        assert(no_backslash(comps[comps.len() - 1]));
        lemma_split_append(a1, last);
        assert(split(a1).drop_last() =~= split(a));
        assert(e + last =~= last);
        assert(init.push(last) =~= comps);
    }
}

/// A key that begins with a device prefix or a drive loses components when
/// it is normalized once more.
///
/// `f` are the components of such a key: plain, and left as they are by
/// case-folding. Then the components of the key's key are those of `f`
/// from some later one on.
pub proof fn lemma_prefixed_key_shrinks(f: Seq<Seq<char>>)
    requires
        f.len() > 0,
        forall|i: int| 0 <= i < f.len() ==> is_plain_component(#[trigger] f[i]),
        has_key_prefix(join(f)),
    ensures
        exists|j: int| 1 <= j < f.len() && key_components(join(f)) == #[trigger] f.skip(j),
{
    let k = join(f);
    lemma_join_no_slash(f);
    assert(backslashed(k) =~= k);
    lemma_join_head(f);
    let c0 = f[0];
    let g = f.skip(1);
    let rest = join(g);
    assert(is_plain_component(c0));
    assert(k[0] == '\\');
    assert(k[1] == c0[0]);
    if c0.len() >= 2 {
        assert(k[2] == c0[1]);
    }
    if c0.len() >= 3 {
        assert(k[3] == c0[2]);
    }
    if c0.len() == 1 && rest.len() > 0 {
        assert(k[2] == rest[0]);
    }
    if c0.len() == 2 && rest.len() > 0 {
        assert(k[3] == rest[0]);
    }
    assert(f.len() >= 2);
    assert forall|i: int| 0 <= i < g.len() implies is_plain_component(#[trigger] g[i]) by {
        assert(g[i] == f[i + 1]);
    }
    assert forall|i: int| 0 <= i < g.len() implies no_backslash(#[trigger] g[i]) by {
        assert(is_plain_component(g[i]));
    }
    lemma_join_head(g);
    let d0 = g[0];
    let h = g.skip(1);
    let rest2 = join(h);
    assert(is_plain_component(d0));
    assert forall|i: int| 0 <= i < h.len() implies is_plain_component(#[trigger] h[i]) by {
        assert(h[i] == g[i + 1]);
    }
    assert forall|i: int| 0 <= i < h.len() implies no_backslash(#[trigger] h[i]) by {
        assert(is_plain_component(h[i]));
    }
    assert(h =~= f.skip(2));
    if has_device_prefix(k) {
        assert(c0.len() == 2);
        let u = k.skip(4);
        assert(u =~= rest.skip(1));
        assert(u =~= d0 + rest2);
        assert(u[0] == d0[0]);
        if d0.len() >= 2 {
            assert(u[1] == d0[1]);
        }
        if d0.len() >= 3 {
            assert(u[2] == d0[2]);
        }
        if d0.len() == 1 && rest2.len() > 0 {
            assert(u[1] == rest2[0]);
        }
        if d0.len() == 2 && rest2.len() > 0 {
            assert(u[2] == rest2[0]);
        }
        if has_bare_drive(u) {
            assert(d0.len() == 2);
            assert(h.len() > 0);
            let v = u.skip(2);
            assert(v =~= rest2);
            lemma_after_rooted_drive(h, f, 2);
        } else {
            assert(!has_rooted_drive(u));
            lemma_split_join_tail(g);
            lemma_resolve_all_plain(g);
            assert(key_components(k) == f.skip(1));
        }
    } else if has_bare_drive(k) {
        assert(c0.len() == 1);
        let v = k.skip(2);
        assert(v =~= rest);
        lemma_after_rooted_drive(g, f, 1);
    } else {
        assert(has_rooted_drive(k));
        assert(c0.len() == 2);
        let v = k.skip(3);
        assert(v =~= rest);
        lemma_split_join(g);
        lemma_resolve_plain(g);
        assert(key_components(k) == f.skip(1));
    }
}

/// What remains of a path behind a drive, once a drive that may follow is
/// taken away too.
///
/// `g` are the components of `f` from the `j`th on, and there are some.
/// Then the pieces of their path, with a leading drive taken away, resolve
/// to the components of `f` from the `j`th or the next on.
proof fn lemma_after_rooted_drive(g: Seq<Seq<char>>, f: Seq<Seq<char>>, j: int)
    requires
        1 <= j < f.len(),
        g == f.skip(j),
        forall|i: int| 0 <= i < g.len() ==> is_plain_component(#[trigger] g[i]),
    ensures
        exists|n: int|
            1 <= n < f.len() && resolve(split(without_rooted_drive(join(g)))) == #[trigger] f.skip(
                n,
            ),
{
    let v = join(g);
    assert forall|i: int| 0 <= i < g.len() implies no_backslash(#[trigger] g[i]) by {
        assert(is_plain_component(g[i]));
    }
    lemma_join_head(g);
    let c0 = g[0];
    let h = g.skip(1);
    let rest = join(h);
    assert(is_plain_component(c0));
    if has_rooted_drive(v) {
        assert(v[1] == c0[0]);
        if c0.len() >= 2 {
            assert(v[2] == c0[1]);
        }
        if c0.len() >= 3 {
            assert(v[3] == c0[2]);
        }
        if c0.len() == 1 && rest.len() > 0 {
            assert(v[2] == rest[0]);
        }
        if c0.len() == 2 && rest.len() > 0 {
            assert(v[3] == rest[0]);
        }
        assert(c0.len() == 2);
        assert(h.len() > 0);
        assert(v.skip(3) =~= rest);
        assert forall|i: int| 0 <= i < h.len() implies is_plain_component(#[trigger] h[i]) by {
            assert(h[i] == g[i + 1]);
        }
        assert forall|i: int| 0 <= i < h.len() implies no_backslash(#[trigger] h[i]) by {
            assert(is_plain_component(h[i]));
        }
        lemma_split_join(h);
        lemma_resolve_plain(h);
        assert(h =~= f.skip(j + 1));
        assert(resolve(split(without_rooted_drive(v))) == f.skip(j + 1));
    } else {
        lemma_split_join(g);
        lemma_resolve_plain(g);
        assert(resolve(split(without_rooted_drive(v))) == f.skip(j));
    }
}

/// Whether `f` are components as a key holds them: each plain, and left as
/// it is by case-folding.
pub open spec fn is_key_path(f: Seq<Seq<char>>) -> bool {
    forall|i: int|
        0 <= i < f.len() ==> is_plain_component(#[trigger] f[i]) && fold_case(f[i]) == f[i]
}

/// The path of the components `f`: the root key for none of them.
pub open spec fn path_of(f: Seq<Seq<char>>) -> Seq<char> {
    if f.len() == 0 {
        root_key()
    } else {
        join(f)
    }
}

/// The later components of a key's components are a key's components too.
pub proof fn lemma_key_path_skip(f: Seq<Seq<char>>, j: int)
    requires
        is_key_path(f),
        0 <= j <= f.len(),
    ensures
        is_key_path(f.skip(j)),
{
    assert forall|i: int| 0 <= i < f.skip(j).len() implies is_plain_component(
        #[trigger] f.skip(j)[i],
    ) && fold_case(f.skip(j)[i]) == f.skip(j)[i] by {
        assert(f.skip(j)[i] == f[i + j]);
    }
}

/// One pass leaves a key without prefix as it is.
pub proof fn lemma_single_key_keeps(f: Seq<Seq<char>>)
    requires
        is_key_path(f),
        !has_key_prefix(path_of(f)),
    ensures
        single_key(path_of(f)) == path_of(f),
{
    if f.len() == 0 {
        lemma_single_key_of_root();
    } else {
        let k = join(f);
        assert forall|i: int| 0 <= i < f.len() implies is_plain_component(#[trigger] f[i]) by {}
        assert forall|i: int| 0 <= i < f.len() implies no_backslash(#[trigger] f[i]) by {
            assert(is_plain_component(f[i]));
        }
        lemma_join_no_slash(f);
        assert(backslashed(k) =~= k);
        lemma_split_join(f);
        lemma_resolve_plain(f);
        assert(key_components(k) == f);
        assert(folded(f) =~= f) by {
            assert forall|i: int| 0 <= i < f.len() implies folded(f)[i] == f[i] by {
                assert(fold_case(f[i]) == f[i]);
            }
        }
    }
}

/// One pass takes components from the front of a key with a prefix, and
/// leaves at least one.
pub proof fn lemma_single_key_shrinks(f: Seq<Seq<char>>)
    requires
        is_key_path(f),
        f.len() > 0,
        has_key_prefix(join(f)),
    ensures
        exists|j: int|
            1 <= j < f.len() && single_key(join(f)) == join(#[trigger] f.skip(j)) && join(
                f.skip(j),
            ).len() < join(f).len(),
{
    assert forall|i: int| 0 <= i < f.len() implies is_plain_component(#[trigger] f[i]) by {}
    lemma_prefixed_key_shrinks(f);
    let j = choose|j: int| 1 <= j < f.len() && key_components(join(f)) == #[trigger] f.skip(j);
    let g = f.skip(j);
    lemma_key_path_skip(f, j);
    assert(folded(g) =~= g) by {
        assert forall|i: int| 0 <= i < g.len() implies folded(g)[i] == g[i] by {
            assert(fold_case(g[i]) == g[i]);
        }
    }
    assert(single_key(join(f)) == join(g));
    assert(f =~= f.take(j) + g);
    lemma_join_concat(f.take(j), g);
    lemma_join_begins(f.take(j));
    assert(join(f).len() > join(g).len());
}

/// Passing a key until no prefix is left keeps its later components, and
/// leaves no prefix.
pub proof fn lemma_settled_key_path(f: Seq<Seq<char>>)
    requires
        is_key_path(f),
    ensures
        exists|j: int|
            0 <= j <= f.len() && (f.len() > 0 ==> j < f.len()) && settled(path_of(f)) == path_of(
                #[trigger] f.skip(j),
            ),
        !has_key_prefix(settled(path_of(f))),
    decreases f.len(),
{
    if f.len() == 0 || !has_key_prefix(path_of(f)) {
        assert(!has_key_prefix(root_key()));
        assert(f.skip(0) =~= f);
        assert(settled(path_of(f)) == path_of(f.skip(0)));
    } else {
        lemma_single_key_shrinks(f);
        let j1 = choose|j: int|
            1 <= j < f.len() && single_key(join(f)) == join(#[trigger] f.skip(j)) && join(
                f.skip(j),
            ).len() < join(f).len();
        let g = f.skip(j1);
        lemma_key_path_skip(f, j1);
        lemma_settled_key_path(g);
        let j2 = choose|j: int|
            0 <= j <= g.len() && (g.len() > 0 ==> j < g.len()) && settled(path_of(g)) == path_of(
                #[trigger] g.skip(j),
            );
        assert(g.skip(j2) =~= f.skip(j1 + j2));
        assert(settled(path_of(f)) == settled(path_of(g)));
        assert(settled(path_of(f)) == path_of(f.skip(j1 + j2)));
    }
}

/// A key is the path of plain, case-folded components, and begins with no
/// device prefix and no drive.
pub proof fn lemma_key_is_settled(raw: Seq<char>)
    ensures
        exists|f: Seq<Seq<char>>| is_key_path(f) && key_of(raw) == #[trigger] path_of(f),
        !has_key_prefix(key_of(raw)),
{
    let f = folded(key_components(raw));
    lemma_folded_components(raw);
    assert(is_key_path(f));
    if f.len() == 0 {
        assert(single_key(raw) == path_of(f));
    }
    lemma_settled_key_path(f);
    let j = choose|j: int|
        0 <= j <= f.len() && (f.len() > 0 ==> j < f.len()) && settled(path_of(f)) == path_of(
            #[trigger] f.skip(j),
        );
    lemma_key_path_skip(f, j);
    assert(key_of(raw) == path_of(f.skip(j)));
}

/// The root is its own key.
pub proof fn lemma_key_of_root()
    ensures
        key_of(root_key()) == root_key(),
{
    lemma_single_key_of_root();
    assert(!has_key_prefix(root_key()));
}

/// The key of a path is the root key exactly when none of its components
/// remains after one pass.
pub proof fn lemma_root_key_iff_no_components(raw: Seq<char>)
    ensures
        key_of(raw) == root_key() <==> key_components(raw).len() == 0,
{
    lemma_single_root_iff(raw);
    let f = folded(key_components(raw));
    lemma_folded_components(raw);
    assert(is_key_path(f));
    if f.len() == 0 {
        assert(!has_key_prefix(root_key()));
    } else {
        lemma_settled_key_path(f);
        let j = choose|j: int|
            0 <= j <= f.len() && (f.len() > 0 ==> j < f.len()) && settled(path_of(f)) == path_of(
                #[trigger] f.skip(j),
            );
        let g = f.skip(j);
        lemma_key_path_skip(f, j);
        assert forall|i: int| 0 <= i < g.len() implies (#[trigger] g[i]).len() > 0 by {
            assert(is_plain_component(g[i]));
        }
        lemma_join_len(g);
    }
}

/// The shape of a key.
///
/// A key begins with exactly one separator, and with no device prefix and
/// no drive. It is the root key, or its pieces are one empty piece and then
/// plain components only: none empty, none with a slash of either kind,
/// none `.` or `..`. Each of these components is case-folded: folding it
/// again leaves it as it is.
pub proof fn lemma_key_shape(raw: Seq<char>)
    ensures
        key_of(raw).len() >= 1,
        key_of(raw)[0] == '\\',
        key_of(raw).len() >= 2 ==> key_of(raw)[1] != '\\',
        !has_key_prefix(key_of(raw)),
        no_slash(key_of(raw)),
        key_of(raw) == root_key() || {
            &&& split(key_of(raw)).len() >= 2
            &&& split(key_of(raw))[0].len() == 0
            &&& forall|i: int|
                1 <= i < split(key_of(raw)).len() ==> {
                    &&& is_plain_component(#[trigger] split(key_of(raw))[i])
                    &&& fold_case(split(key_of(raw))[i]) == split(key_of(raw))[i]
                }
        },
{
    lemma_key_is_settled(raw);
    let f = choose|f: Seq<Seq<char>>| is_key_path(f) && key_of(raw) == #[trigger] path_of(f);
    let k = key_of(raw);
    if f.len() > 0 {
        lemma_join_begins(f);
        assert(is_plain_component(f[0]));
        assert(f[0][0] != '\\');
        assert(k[1] == f[0][0]);
        assert forall|i: int| 0 <= i < f.len() implies is_plain_component(#[trigger] f[i]) by {}
        assert forall|i: int| 0 <= i < f.len() implies no_backslash(#[trigger] f[i]) by {
            assert(is_plain_component(f[i]));
        }
        lemma_join_no_slash(f);
        lemma_split_join(f);
        let pieces = seq![Seq::<char>::empty()] + f;
        assert(split(k) == pieces);
        assert forall|i: int| 1 <= i < pieces.len() implies {
            &&& is_plain_component(#[trigger] pieces[i])
            &&& fold_case(pieces[i]) == pieces[i]
        } by {
            assert(pieces[i] == f[i - 1]);
            assert(is_plain_component(f[i - 1]));
        }
    }
}

/// Normalization is idempotent: the key of a key is that key again.
pub proof fn lemma_key_idempotent(raw: Seq<char>)
    ensures
        key_of(key_of(raw)) == key_of(raw),
{
    lemma_key_is_settled(raw);
    let f = choose|f: Seq<Seq<char>>| is_key_path(f) && key_of(raw) == #[trigger] path_of(f);
    lemma_single_key_keeps(f);
}

/// A component of a key is its own lowercase form, unless lowercasing it
/// gives nothing that a key can hold: a form that is not a plain component,
/// or that lowercasing changes again.
pub proof fn lemma_key_component_is_lowercase(c: Seq<char>)
    requires
        fold_case(c) == c,
        is_plain_component(lowercase_of(c)),
        lowercase_of(lowercase_of(c)) == lowercase_of(c),
    ensures
        lowercase_of(c) == c,
{
}

} // verus!
