//! Characters and strings as sequences of characters.
use vstd::prelude::*;

verus! {

/// `String::push`: appends one character.
pub assume_specification[ String::push ](s: &mut String, c: char)
    ensures
        final(s)@ == old(s)@.push(c),
;

/// The characters with the Unicode property `White_Space`.
pub open spec fn white_space(c: char) -> bool {
    let u = c as u32;
    ||| 0x09 <= u <= 0x0D
    ||| u == 0x20
    ||| u == 0x85
    ||| u == 0xA0
    ||| u == 0x1680
    ||| 0x2000 <= u <= 0x200A
    ||| u == 0x2028
    ||| u == 0x2029
    ||| u == 0x202F
    ||| u == 0x205F
    ||| u == 0x3000
}

/// `char::is_whitespace`: whether the character has the property `White_Space`.
pub assume_specification[ char::is_whitespace ](c: char) -> (r: bool)
    ensures
        r == white_space(c),
;

/// Whether `char::is_alphanumeric` says that a character is a letter or a digit
/// in the sense of Unicode.
pub uninterp spec fn alphanumeric(c: char) -> bool;

/// An ASCII letter or digit.
pub open spec fn ascii_alphanumeric(c: char) -> bool {
    let u = c as u32;
    0x30 <= u <= 0x39 || 0x41 <= u <= 0x5A || 0x61 <= u <= 0x7A
}

/// `char::is_alphanumeric`: a property of the character alone. Among the ASCII
/// characters these are the letters and the digits.
pub assume_specification[ char::is_alphanumeric ](c: char) -> (r: bool)
    ensures
        r == alphanumeric(c),
        (c as u32) < 0x80 ==> r == ascii_alphanumeric(c),
;

/// What `str::to_lowercase` makes of a text.
pub uninterp spec fn lowercase(s: Seq<char>) -> Seq<char>;

/// A character with an ASCII capital turned into the small letter.
pub open spec fn ascii_lower(c: char) -> char {
    if 0x41 <= c as u32 <= 0x5A {
        (c as u8 + 0x20) as char
    } else {
        c
    }
}

/// `str::to_lowercase`: depends on the text alone. An ASCII text keeps its
/// length, its capitals becoming small letters.
pub assume_specification[ str::to_lowercase ](s: &str) -> (r: String)
    ensures
        r@ == lowercase(s@),
        (forall|k: int| 0 <= k < s@.len() ==> (#[trigger] s@[k] as u32) < 0x80) ==> r@
            == s@.map_values(|c: char| ascii_lower(c)),
;

/// The characters of `s`, in order.
pub fn to_chars(s: &str) -> (r: Vec<char>)
    ensures
        r@ == s@,
{
    let mut r: Vec<char> = Vec::new();
    for c in it: s.chars()
        invariant
            it.seq() == s@,
            r@ == s@.take(it.index() as int),
    {
        r.push(c);
        assert(s@.take(it.index() + 1) == s@.take(it.index() as int).push(c));
    }
    assert(s@.take(s@.len() as int) == s@);
    r
}

/// The string with the characters `v`, in order.
pub fn from_chars(v: &[char]) -> (r: String)
    ensures
        r@ == v@,
{
    let mut r = String::new();
    for i in 0..v.len()
        invariant
            r@ == v@.take(i as int),
    {
        r.push(v[i]);
        assert(v@.take(i + 1) == v@.take(i as int).push(v@[i as int]));
    }
    assert(v@.take(v@.len() as int) == v@);
    r
}

/// Whether two strings are the same.
pub fn same_text(a: &str, b: &str) -> (r: bool)
    ensures
        r == (a@ == b@),
{
    a.to_owned() == b.to_owned()
}

/// Whether two runs of characters are the same.
pub fn same_chars(a: &[char], b: &[char]) -> (r: bool)
    ensures
        r == (a@ == b@),
{
    if a.len() != b.len() {
        return false;
    }
    for i in 0..a.len()
        invariant
            a@.len() == b@.len(),
            forall|k: int| 0 <= k < i ==> a@[k] == b@[k],
    {
        if a[i] != b[i] {
            assert(a@[i as int] != b@[i as int]);
            return false;
        }
    }
    assert(a@ =~= b@);
    true
}

/// Whether `s` starts with `prefix`.
pub fn starts_with(s: &[char], prefix: &[char]) -> (r: bool)
    ensures
        r == prefix@.is_prefix_of(s@),
{
    if prefix.len() > s.len() {
        return false;
    }
    for i in 0..prefix.len()
        invariant
            prefix@.len() <= s@.len(),
            forall|k: int| 0 <= k < i ==> prefix@[k] == s@[k],
    {
        if s[i] != prefix[i] {
            assert(s@.subrange(0, prefix@.len() as int)[i as int] != prefix@[i as int]);
            return false;
        }
    }
    assert(prefix@ =~= s@.subrange(0, prefix@.len() as int));
    true
}

/// What stands between the separators, empty pieces included.
pub open spec fn fields(s: Seq<char>, sep: char) -> Seq<Seq<char>>
    decreases s.len(),
{
    if s.len() == 0 {
        seq![seq![]]
    } else {
        let head = fields(s.drop_last(), sep);
        if s.last() == sep {
            head.push(seq![])
        } else {
            head.update(head.len() - 1, head.last().push(s.last()))
        }
    }
}

/// The characters of a list of runs.
pub open spec fn char_lists(list: Seq<Vec<char>>) -> Seq<Seq<char>> {
    list.map_values(|v: Vec<char>| v@)
}

pub proof fn lemma_fields_nonempty(s: Seq<char>, sep: char)
    ensures
        fields(s, sep).len() > 0,
    decreases s.len(),
{
    if s.len() > 0 {
        lemma_fields_nonempty(s.drop_last(), sep);
    }
}

/// Splits at every separator.
pub fn split(s: &[char], sep: char) -> (r: Vec<Vec<char>>)
    ensures
        char_lists(r@) == fields(s@, sep),
        r@.len() > 0,
{
    let mut done: Vec<Vec<char>> = Vec::new();
    let mut open: Vec<char> = Vec::new();
    assert(char_lists(done@).push(open@) =~= fields(s@.take(0), sep));
    for i in 0..s.len()
        invariant
            char_lists(done@).push(open@) == fields(s@.take(i as int), sep),
    {
        let c = s[i];
        assert(s@.take(i + 1).drop_last() =~= s@.take(i as int));
        let ghost head = char_lists(done@);
        let ghost piece = open@;
        if c == sep {
            done.push(open);
            open = Vec::new();
            assert(char_lists(done@) =~= head.push(piece));
            assert(open@ =~= seq![]);
        } else {
            open.push(c);
            let ghost was = head.push(piece);
            assert(was.update(was.len() - 1, was.last().push(c)) =~= head.push(open@));
        }
    }
    assert(s@.take(s@.len() as int) =~= s@);
    let ghost head = char_lists(done@);
    let ghost piece = open@;
    done.push(open);
    assert(char_lists(done@) =~= head.push(piece));
    done
}

/// A run of characters without white space at its end.
pub open spec fn trimmed_end(s: Seq<char>) -> Seq<char>
    decreases s.len(),
{
    if s.len() > 0 && white_space(s.last()) {
        trimmed_end(s.drop_last())
    } else {
        s
    }
}

/// A run of characters without white space at its start.
pub open spec fn trimmed_start(s: Seq<char>) -> Seq<char>
    decreases s.len(),
{
    if s.len() > 0 && white_space(s[0]) {
        trimmed_start(s.drop_first())
    } else {
        s
    }
}

/// A run of characters without white space at either end.
pub open spec fn trimmed(s: Seq<char>) -> Seq<char> {
    trimmed_end(trimmed_start(s))
}

/// Takes white space off both ends.
pub fn trim(s: &[char]) -> (r: Vec<char>)
    ensures
        r@ == trimmed(s@),
{
    let mut from: usize = 0;
    assert(s@.skip(0) =~= s@);
    while from < s.len() && s[from].is_whitespace()
        invariant
            from <= s@.len(),
            trimmed_start(s@) == trimmed_start(s@.skip(from as int)),
        decreases s@.len() - from,
    {
        assert(s@.skip(from as int).drop_first() =~= s@.skip(from + 1));
        from = from + 1;
    }
    let ghost rest = s@.skip(from as int);
    assert(trimmed_start(rest) == rest);
    let mut to: usize = s.len();
    assert(s@.subrange(from as int, to as int) =~= rest);
    while to > from && s[to - 1].is_whitespace()
        invariant
            from <= to <= s@.len(),
            trimmed_end(rest) == trimmed_end(s@.subrange(from as int, to as int)),
        decreases to - from,
    {
        assert(s@.subrange(from as int, to as int).drop_last() =~= s@.subrange(
            from as int,
            to - 1,
        ));
        to = to - 1;
    }
    let mut r: Vec<char> = Vec::new();
    let mut k: usize = from;
    while k < to
        invariant
            from <= k <= to <= s@.len(),
            r@ == s@.subrange(from as int, k as int),
        decreases to - k,
    {
        r.push(s[k]);
        k = k + 1;
        assert(r@ =~= s@.subrange(from as int, k as int));
    }
    r
}

/// The words of a text: its longest runs without white space.
pub open spec fn spaced_words(s: Seq<char>) -> Seq<Seq<char>>
    decreases s.len(),
{
    if s.len() == 0 {
        seq![]
    } else {
        let rest = s.drop_last();
        let head = spaced_words(rest);
        if white_space(s.last()) {
            head
        } else if rest.len() > 0 && !white_space(rest.last()) {
            head.update(head.len() - 1, head.last().push(s.last()))
        } else {
            head.push(seq![s.last()])
        }
    }
}

proof fn lemma_open_word(s: Seq<char>)
    ensures
        s.len() > 0 && !white_space(s.last()) ==> spaced_words(s).len() > 0,
    decreases s.len(),
{
    if s.len() > 0 {
        lemma_open_word(s.drop_last());
    }
}

/// Splits at white space.
pub fn split_whitespace(s: &[char]) -> (r: Vec<Vec<char>>)
    ensures
        char_lists(r@) == spaced_words(s@),
{
    let mut done: Vec<Vec<char>> = Vec::new();
    let mut open: Vec<char> = Vec::new();
    assert(char_lists(done@) =~= seq![]);
    for i in 0..s.len()
        invariant
            spaced_words(s@.take(i as int)) == (if open.len() > 0 {
                char_lists(done@).push(open@)
            } else {
                char_lists(done@)
            }),
            open.len() > 0 <==> i > 0 && !white_space(s@[i - 1]),
    {
        let c = s[i];
        let ghost upto = s@.take(i + 1);
        proof {
            assert(upto.drop_last() =~= s@.take(i as int));
            lemma_open_word(s@.take(i as int));
        }
        let ghost head = char_lists(done@);
        let ghost piece = open@;
        if c.is_whitespace() {
            if open.len() > 0 {
                done.push(open);
                open = Vec::new();
                assert(char_lists(done@) =~= head.push(piece));
            }
        } else {
            open.push(c);
            proof {
                if piece.len() == 0 {
                    assert(open@ =~= seq![c]);
                } else {
                    let was = head.push(piece);
                    assert(was.update(was.len() - 1, open@) =~= head.push(open@));
                }
            }
        }
    }
    assert(s@.take(s@.len() as int) =~= s@);
    if open.len() > 0 {
        let ghost head = char_lists(done@);
        let ghost piece = open@;
        done.push(open);
        assert(char_lists(done@) =~= head.push(piece));
    }
    done
}

/// The longest runs of characters that are flagged.
pub open spec fn runs(s: Seq<char>, keep: Seq<bool>) -> Seq<Seq<char>>
    decreases s.len(),
{
    if s.len() == 0 {
        seq![]
    } else {
        let n = s.len() - 1;
        let head = runs(s.drop_last(), keep);
        if !keep[n] {
            head
        } else if n > 0 && keep[n - 1] {
            head.update(head.len() - 1, head.last().push(s.last()))
        } else {
            head.push(seq![s.last()])
        }
    }
}

proof fn lemma_open_run(s: Seq<char>, keep: Seq<bool>)
    ensures
        s.len() > 0 && keep[s.len() - 1] ==> runs(s, keep).len() > 0,
    decreases s.len(),
{
    if s.len() > 0 {
        lemma_open_run(s.drop_last(), keep);
    }
}

/// Splits into the longest runs of flagged characters.
pub fn split_runs(s: &[char], keep: &[bool]) -> (r: Vec<Vec<char>>)
    requires
        s@.len() == keep@.len(),
    ensures
        char_lists(r@) == runs(s@, keep@),
{
    let mut done: Vec<Vec<char>> = Vec::new();
    let mut open: Vec<char> = Vec::new();
    assert(char_lists(done@) =~= seq![]);
    for i in 0..s.len()
        invariant
            s@.len() == keep@.len(),
            runs(s@.take(i as int), keep@) == (if open.len() > 0 {
                char_lists(done@).push(open@)
            } else {
                char_lists(done@)
            }),
            open.len() > 0 <==> i > 0 && keep@[i - 1],
    {
        let c = s[i];
        let ghost upto = s@.take(i + 1);
        proof {
            assert(upto.drop_last() =~= s@.take(i as int));
            lemma_open_run(s@.take(i as int), keep@);
        }
        let ghost head = char_lists(done@);
        let ghost piece = open@;
        if !keep[i] {
            if open.len() > 0 {
                done.push(open);
                open = Vec::new();
                assert(char_lists(done@) =~= head.push(piece));
            }
        } else {
            open.push(c);
            proof {
                if piece.len() == 0 {
                    assert(open@ =~= seq![c]);
                } else {
                    let was = head.push(piece);
                    assert(was.update(was.len() - 1, open@) =~= head.push(open@));
                }
            }
        }
    }
    assert(s@.take(s@.len() as int) =~= s@);
    if open.len() > 0 {
        let ghost head = char_lists(done@);
        let ghost piece = open@;
        done.push(open);
        assert(char_lists(done@) =~= head.push(piece));
    }
    done
}

/// The characters of a list of strings.
pub open spec fn texts(list: Seq<String>) -> Seq<Seq<char>> {
    list.map_values(|s: String| s@)
}

/// `pattern` stands at `i`.
pub open spec fn stands_at(s: Seq<char>, pattern: Seq<char>, i: int) -> bool {
    0 <= i && i + pattern.len() <= s.len() && s.subrange(i, i + pattern.len()) == pattern
}

/// The first place from `i` on where `pattern` stands.
pub open spec fn find_from(s: Seq<char>, pattern: Seq<char>, i: int) -> Option<int>
    decreases s.len() + 1 - i,
{
    if i > s.len() {
        None
    } else if stands_at(s, pattern, i) {
        Some(i)
    } else {
        find_from(s, pattern, i + 1)
    }
}

/// The first place where `pattern` stands.
pub open spec fn find_in(s: Seq<char>, pattern: Seq<char>) -> Option<int> {
    find_from(s, pattern, 0)
}

/// What stands before the first `pattern`, and behind it.
pub open spec fn cut(s: Seq<char>, pattern: Seq<char>) -> Option<(Seq<char>, Seq<char>)> {
    match find_in(s, pattern) {
        Some(i) => Some((s.take(i), s.skip(i + pattern.len()))),
        None => None,
    }
}

/// Where a pattern is found it stands, and nowhere earlier.
pub proof fn lemma_find_from(s: Seq<char>, pattern: Seq<char>, i: int)
    requires
        0 <= i,
    ensures
        find_from(s, pattern, i) matches Some(k) ==> i <= k && stands_at(s, pattern, k),
        find_from(s, pattern, i) matches Some(k) ==> forall|j: int|
            i <= j < k ==> !#[trigger] stands_at(s, pattern, j),
        find_from(s, pattern, i) is None ==> forall|j: int|
            i <= j ==> !#[trigger] stands_at(s, pattern, j),
    decreases s.len() + 1 - i,
{
    if i <= s.len() && !stands_at(s, pattern, i) {
        lemma_find_from(s, pattern, i + 1);
    }
}

/// What stands and nowhere earlier is found.
pub proof fn lemma_found_at(s: Seq<char>, pattern: Seq<char>, i: int, k: int)
    requires
        0 <= i <= k,
        stands_at(s, pattern, k),
        forall|j: int| i <= j < k ==> !#[trigger] stands_at(s, pattern, j),
    ensures
        find_from(s, pattern, i) == Some(k),
    decreases k - i,
{
    if i < k {
        assert(!stands_at(s, pattern, i));
        lemma_found_at(s, pattern, i + 1, k);
    }
}

/// Copies a range of characters.
pub fn copy_range(s: &[char], from: usize, to: usize) -> (r: Vec<char>)
    requires
        from <= to <= s@.len(),
    ensures
        r@ == s@.subrange(from as int, to as int),
{
    let mut r: Vec<char> = Vec::new();
    let mut k: usize = from;
    while k < to
        invariant
            from <= k <= to <= s@.len(),
            r@ == s@.subrange(from as int, k as int),
        decreases to - k,
    {
        r.push(s[k]);
        k = k + 1;
        assert(r@ =~= s@.subrange(from as int, k as int));
    }
    r
}

/// Finds the first place where `pattern` stands.
pub fn find(s: &[char], pattern: &[char]) -> (r: Option<usize>)
    ensures
        r is Some == find_in(s@, pattern@) is Some,
        r matches Some(i) ==> i == find_in(s@, pattern@)->0 && i + pattern@.len() <= s@.len(),
{
    let n: usize = pattern.len();
    let mut i: usize = 0;
    while i <= s.len() && s.len() - i >= n
        invariant
            i <= s@.len(),
            n == pattern@.len(),
            find_in(s@, pattern@) == find_from(s@, pattern@, i as int),
        decreases s@.len() - i,
    {
        let piece = copy_range(s, i, i + n);
        if same_chars(piece.as_slice(), pattern) {
            assert(stands_at(s@, pattern@, i as int));
            return Some(i);
        }
        assert(!stands_at(s@, pattern@, i as int));
        if i == s.len() {
            assert(find_from(s@, pattern@, i + 1) is None);
            return None;
        }
        i = i + 1;
    }
    proof {
        lemma_find_from(s@, pattern@, i as int);
    }
    None
}

/// Splits at the first `pattern`.
pub fn split_once(s: &[char], pattern: &[char]) -> (r: Option<(Vec<char>, Vec<char>)>)
    ensures
        r is Some == cut(s@, pattern@) is Some,
        r matches Some(p) ==> p.0@ == (cut(s@, pattern@)->0).0 && p.1@ == (cut(s@, pattern@)->0).1,
{
    match find(s, pattern) {
        Some(i) => {
            assert(i + pattern@.len() <= s.len());
            let head = copy_range(s, 0, i);
            let tail = copy_range(s, i + pattern.len(), s.len());
            assert(head@ =~= s@.take(i as int));
            assert(tail@ =~= s@.skip(i + pattern@.len()));
            Some((head, tail))
        },
        None => None,
    }
}

/// A list of texts with `sep` between them.
pub open spec fn join_with(list: Seq<Seq<char>>, sep: char) -> Seq<char>
    decreases list.len(),
{
    if list.len() == 0 {
        seq![]
    } else if list.len() == 1 {
        list[0]
    } else {
        join_with(list.drop_last(), sep).push(sep) + list.last()
    }
}

/// Joins texts with `sep` between them.
pub fn join(list: &Vec<Vec<char>>, sep: char) -> (r: Vec<char>)
    ensures
        r@ == join_with(char_lists(list@), sep),
{
    let ghost all = char_lists(list@);
    let mut r: Vec<char> = Vec::new();
    assert(all.take(0) =~= seq![]);
    for i in 0..list.len()
        invariant
            all == char_lists(list@),
            r@ == join_with(all.take(i as int), sep),
    {
        let ghost upto = all.take(i + 1);
        assert(upto.drop_last() =~= all.take(i as int));
        assert(upto.last() == list@[i as int]@);
        if i > 0 {
            r.push(sep);
        }
        let ghost before = r@;
        r.extend_from_slice(list[i].as_slice());
        assert(r@ =~= before + list@[i as int]@);
        proof {
            if i == 0 {
                assert(upto[0] == list@[0]@);
                assert(r@ =~= list@[0]@);
            }
        }
    }
    assert(all.take(all.len() as int) =~= all);
    r
}

/// A line without the carriage return before its line feed.
pub open spec fn without_return(s: Seq<char>) -> Seq<char> {
    if s.len() > 0 && s.last() == '\r' {
        s.drop_last()
    } else {
        s
    }
}

/// The lines of a text, each without its line feed and the carriage return
/// before it. What follows the last line feed is a line unless it is empty.
pub open spec fn text_lines(s: Seq<char>) -> Seq<Seq<char>> {
    let all = fields(s, '\n');
    let closed = all.drop_last().map_values(|l: Seq<char>| without_return(l));
    if all.last().len() == 0 {
        closed
    } else {
        closed.push(all.last())
    }
}

/// Splits into lines.
pub fn lines(s: &[char]) -> (r: Vec<Vec<char>>)
    ensures
        char_lists(r@) == text_lines(s@),
{
    let mut all = split(s, '\n');
    let ghost pieces = char_lists(all@);
    let ghost n = pieces.len();
    let last = all.pop();
    assert(char_lists(all@) =~= pieces.drop_last());
    let mut r: Vec<Vec<char>> = Vec::new();
    let ghost closed = pieces.drop_last().map_values(|l: Seq<char>| without_return(l));
    assert(char_lists(r@) =~= closed.take(0));
    for i in 0..all.len()
        invariant
            char_lists(all@) == pieces.drop_last(),
            closed == pieces.drop_last().map_values(|l: Seq<char>| without_return(l)),
            char_lists(r@) == closed.take(i as int),
    {
        let ghost raw = all@[i as int]@;
        assert(raw == pieces.drop_last()[i as int]);
        let mut line: Vec<char> = all[i].clone();
        assert(line@ =~= raw);
        if line.len() > 0 && line[line.len() - 1] == '\r' {
            line.pop();
            assert(line@ =~= raw.drop_last());
        }
        let ghost before = char_lists(r@);
        r.push(line);
        assert(char_lists(r@) =~= before.push(line@));
        assert(closed.take(i + 1) =~= before.push(closed[i as int]));
    }
    assert(closed.take(closed.len() as int) =~= closed);
    if let Some(l) = last {
        assert(l@ == pieces.last());
        if l.len() > 0 {
            let ghost before = char_lists(r@);
            r.push(l);
            assert(char_lists(r@) =~= before.push(l@));
        }
    }
    r
}

} // verus!
