use crate::Song;
use vstd::prelude::*;
use vstd::string::{StrSliceExecFns, StringExecFns};

verus! {

/// The character for one decimal digit.
pub open spec fn digit_char(d: int) -> char {
    if d == 0 {
        '0'
    } else if d == 1 {
        '1'
    } else if d == 2 {
        '2'
    } else if d == 3 {
        '3'
    } else if d == 4 {
        '4'
    } else if d == 5 {
        '5'
    } else if d == 6 {
        '6'
    } else if d == 7 {
        '7'
    } else if d == 8 {
        '8'
    } else {
        '9'
    }
}

/// Decimal rendering of a non-negative integer, most significant digit
/// first, without leading zeros (a lone zero for zero).
pub open spec fn dec_chars(n: int) -> Seq<char>
    recommends
        n >= 0,
    decreases n,
{
    if n < 10 {
        seq![digit_char(n)]
    } else {
        dec_chars(n / 10).push(digit_char(n % 10))
    }
}

/// The score in hundredths rendered with two decimal places, as the
/// diagnostic output shows it: `1.00` for a full score, else `0.`
/// followed by two digits.
pub open spec fn score_chars(h: int) -> Seq<char>
    recommends
        0 <= h <= 100,
{
    if h == 100 {
        seq!['1', '.', '0', '0']
    } else {
        seq!['0', '.', digit_char(h / 10), digit_char(h % 10)]
    }
}

/// The diagnostic record for one miss: the original index, the requested
/// text, the best-matched catalog name, and the score to two decimals.
pub open spec fn miss_message(i: int, req: Seq<char>, name: Seq<char>, h: int) -> Seq<char> {
    "target: "@ + dec_chars(i) + "."@ + req + "\nmatch_song:"@ + name + "\nmatch_rate: "@
        + score_chars(h) + "\n "@
}

/// The textual form of a hit: the canonical absolute path, or
/// `directory/name.extension`.
pub open spec fn hit_text(s: Song, abs: bool) -> Seq<char> {
    if abs {
        s.absolute_path@
    } else {
        s.dominant_dir@ + "/"@ + s.name@ + "."@ + s.extension_name@
    }
}

/// The list file split at newline characters: one requested name per
/// line. The empty text yields one empty name, and a trailing newline
/// yields a final empty name; nothing is filtered.
pub open spec fn split_lines(s: Seq<char>) -> Seq<Seq<char>>
    decreases s.len(),
{
    if s.len() == 0 {
        seq![Seq::<char>::empty()]
    } else {
        let pre = split_lines(s.drop_last());
        if s.last() == '\n' {
            pre.push(Seq::<char>::empty())
        } else {
            pre.update(pre.len() - 1, pre.last().push(s.last()))
        }
    }
}

/// Splits the text of the user's list file into requested names, one per
/// line.
pub fn split_user_list(data: &str) -> (r: Vec<String>)
    ensures
        r.deep_view() == split_lines(data@),
{
    let n = data.unicode_len();
    let mut out: Vec<String> = Vec::new();
    let mut seg: usize = 0;
    let mut i: usize = 0;
    proof {
        assert(data@.subrange(0, 0) =~= Seq::<char>::empty());
        assert(data@.take(0) =~= Seq::<char>::empty());
    }
    while i < n
        invariant
            i <= n,
            seg <= i,
            n == data@.len(),
            out.deep_view().push(data@.subrange(seg as int, i as int)) == split_lines(
                data@.take(i as int),
            ),
        decreases n - i,
    {
        let ghost prev_out = out.deep_view();
        let ghost prev_seg = seg as int;
        let c = data.get_char(i);
        if c == '\n' {
            let piece = data.substring_char(seg, i);
            out.push(String::from_str(piece));
            seg = i + 1;
        }
        i = i + 1;
        proof {
            let t = data@.take(i as int);
            assert(t.drop_last() =~= data@.take(i as int - 1));
            assert(t.last() == data@[i as int - 1]);
            if c == '\n' {
                assert(out.deep_view() =~= prev_out.push(
                    data@.subrange(prev_seg, i as int - 1),
                ));
                assert(data@.subrange(seg as int, i as int) =~= Seq::<char>::empty());
                assert(out.deep_view().push(data@.subrange(seg as int, i as int))
                    =~= split_lines(t));
            } else {
                assert(data@.subrange(prev_seg, i as int - 1).push(data@[i as int - 1])
                    =~= data@.subrange(seg as int, i as int));
                assert(out.deep_view().push(data@.subrange(seg as int, i as int))
                    =~= split_lines(t));
            }
        }
    }
    let piece = data.substring_char(seg, n);
    out.push(String::from_str(piece));
    proof {
        assert(data@.take(n as int) =~= data@);
        assert(out.deep_view() =~= split_lines(data@));
    }
    out
}

/// A one-character string for one decimal digit.
fn digit_str(d: usize) -> (r: &'static str)
    requires
        d < 10,
    ensures
        r@ == seq![digit_char(d as int)],
{
    proof {
        reveal_strlit("0");
        reveal_strlit("1");
        reveal_strlit("2");
        reveal_strlit("3");
        reveal_strlit("4");
        reveal_strlit("5");
        reveal_strlit("6");
        reveal_strlit("7");
        reveal_strlit("8");
        reveal_strlit("9");
    }
    let r = match d {
        0 => "0",
        1 => "1",
        2 => "2",
        3 => "3",
        4 => "4",
        5 => "5",
        6 => "6",
        7 => "7",
        8 => "8",
        _ => "9",
    };
    proof {
        assert(r@ =~= seq![digit_char(d as int)]);
    }
    r
}

/// Renders a machine integer in decimal.
pub(crate) fn usize_to_string(n: usize) -> (r: String)
    ensures
        r@ == dec_chars(n as int),
    decreases n,
{
    if n < 10 {
        String::from_str(digit_str(n))
    } else {
        let mut s = usize_to_string(n / 10);
        s.append(digit_str(n % 10));
        proof {
            assert(s@ =~= dec_chars(n as int));
        }
        s
    }
}

/// Renders a score given in hundredths with two decimal places.
fn render_score(h: usize) -> (r: String)
    requires
        h <= 100,
    ensures
        r@ == score_chars(h as int),
{
    if h == 100 {
        proof {
            reveal_strlit("1.00");
            assert("1.00"@ =~= seq!['1', '.', '0', '0']);
        }
        String::from_str("1.00")
    } else {
        proof {
            reveal_strlit("0.");
            assert("0."@ =~= seq!['0', '.']);
        }
        let mut s = String::from_str("0.");
        s.append(digit_str(h / 10));
        s.append(digit_str(h % 10));
        proof {
            assert(s@ =~= score_chars(h as int));
        }
        s
    }
}

/// Builds the diagnostic record for one miss.
pub(crate) fn render_miss(i: usize, req: &str, name: &str, h: usize) -> (r: String)
    requires
        h <= 100,
    ensures
        r@ == miss_message(i as int, req@, name@, h as int),
{
    let mut s = String::from_str("target: ");
    let num = usize_to_string(i);
    s.append(num.as_str());
    s.append(".");
    s.append(req);
    s.append("\nmatch_song:");
    s.append(name);
    s.append("\nmatch_rate: ");
    let sc = render_score(h);
    s.append(sc.as_str());
    s.append("\n ");
    proof {
        assert(s@ =~= miss_message(i as int, req@, name@, h as int));
    }
    s
}

/// Builds the textual form of a hit for one catalog entry.
pub(crate) fn render_hit(song: &Song, abs: bool) -> (r: String)
    ensures
        r@ == hit_text(*song, abs),
{
    if abs {
        song.absolute_path.clone()
    } else {
        let mut s = song.dominant_dir.clone();
        s.append("/");
        s.append(song.name.as_str());
        s.append(".");
        s.append(song.extension_name.as_str());
        proof {
            assert(s@ =~= hit_text(*song, abs));
        }
        s
    }
}

} // verus!
