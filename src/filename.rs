use vstd::prelude::*;

verus! {

/// Index of the last `c` in `s`, or -1.
pub open spec fn last_index_of(s: Seq<char>, c: char) -> int
    decreases s.len(),
{
    if s.len() == 0 {
        -1
    } else if s.last() == c {
        s.len() - 1
    } else {
        last_index_of(s.drop_last(), c)
    }
}

/// Index of the dot that starts the extension of the path's file name, or -1:
/// the last `.` after the last `/`, unless it opens the file name.
pub open spec fn extension_dot(s: Seq<char>) -> int {
    let slash = last_index_of(s, '/');
    let dot = last_index_of(s, '.');
    if dot > slash + 1 { dot } else { -1 }
}

/// The marker inserted before the extension.
pub open spec fn output_marker() -> Seq<char> {
    seq!['_', 'o', 'u', 't', 'p', 'u', 't']
}

/// Relies on std's `str::chars`: the characters of `s`, in order.
#[verifier::external_body]
fn chars_of(s: &str) -> (r: Vec<char>)
    ensures
        r@ == s@,
{
    s.chars().collect()
}

/// Relies on std's `FromIterator<char>` for `String`: the string of the characters, in order.
#[verifier::external_body]
fn string_of(chars: &Vec<char>) -> (r: String)
    ensures
        r@ == chars@,
{
    chars.iter().collect()
}

proof fn lemma_last_index_range(s: Seq<char>, c: char)
    ensures
        -1 <= last_index_of(s, c) < s.len(),
        last_index_of(s, c) >= 0 ==> s[last_index_of(s, c)] == c,
    decreases s.len(),
{
    if s.len() > 0 && s.last() != c {
        lemma_last_index_range(s.drop_last(), c);
    }
}

/// Position of the last `c` in `s`.
fn find_last(s: &Vec<char>, c: char) -> (r: Option<usize>)
    ensures
        r is None <==> last_index_of(s@, c) == -1,
        r matches Some(i) ==> i == last_index_of(s@, c),
{
    let mut i: usize = s.len();
    assert(s@.subrange(0, i as int) == s@);
    while i > 0
        invariant
            i <= s@.len(),
            last_index_of(s@, c) == last_index_of(s@.subrange(0, i as int), c),
        decreases i,
    {
        let ghost pre = s@.subrange(0, i as int);
        assert(pre.drop_last() == s@.subrange(0, i - 1));
        if s[i - 1] == c {
            return Some(i - 1);
        }
        i = i - 1;
    }
    assert(s@.subrange(0, 0).len() == 0);
    None
}

/// The name of the output image for `input`: the file name with `_output`
/// inserted before its extension, in the same directory. `None` when the file
/// name has no extension.
pub fn get_output_filename(input: &str) -> (r: Option<String>)
    ensures
        r is None <==> extension_dot(input@) < 0,
        r matches Some(out) ==> ({
            let dot = extension_dot(input@);
            out@ == input@.subrange(0, dot) + output_marker() + input@.subrange(dot, input@.len() as int)
        }),
{
    let chars = chars_of(input);
    let d = match find_last(&chars, '.') {
        Some(d) => d,
        None => { return None; },
    };
    let opens_name = match find_last(&chars, '/') {
        Some(slash) => d <= slash || d - slash == 1,
        None => d == 0,
    };
    if opens_name {
        return None;
    }
    proof {
        lemma_last_index_range(chars@, '.');
    }
    let mut out: Vec<char> = Vec::new();
    let mut i: usize = 0;
    while i < d
        invariant
            d < chars@.len(),
            i <= d,
            out@ == chars@.subrange(0, i as int),
        decreases d - i,
    {
        out.push(chars[i]);
        i = i + 1;
    }
    out.push('_');
    out.push('o');
    out.push('u');
    out.push('t');
    out.push('p');
    out.push('u');
    out.push('t');
    let ghost head = out@;
    assert(head == chars@.subrange(0, d as int) + output_marker());
    while i < chars.len()
        invariant
            d <= i <= chars@.len(),
            head == chars@.subrange(0, d as int) + output_marker(),
            out@ == head + chars@.subrange(d as int, i as int),
        decreases chars@.len() - i,
    {
        out.push(chars[i]);
        i = i + 1;
        assert(out@ == head + chars@.subrange(d as int, i as int));
    }
    Some(string_of(&out))
}

} // verus!
