//! Reading the tail of the forwarding log.
use vstd::prelude::*;
use crate::text::string_from_chars;

verus! {

broadcast use vstd::string::group_string_axioms;

/// The pieces of `s` between newlines (`s.split('\n')`): always at least one,
/// the last being what follows the last newline.
pub open spec fn newline_pieces(s: Seq<char>) -> Seq<Seq<char>>
    decreases s.len(),
{
    if s.len() == 0 {
        seq![Seq::empty()]
    } else {
        let p = newline_pieces(s.drop_last());
        if s.last() == '\n' {
            p.push(Seq::empty())
        } else {
            p.update(p.len() - 1, p.last().push(s.last()))
        }
    }
}

/// `line` without one trailing carriage return.
pub open spec fn strip_cr(line: Seq<char>) -> Seq<char> {
    if line.len() > 0 && line.last() == '\r' {
        line.drop_last()
    } else {
        line
    }
}

/// The lines of `s` as `str::lines` gives them: `s` split at each newline, a
/// carriage return just before a newline dropped, and no empty line after a
/// final newline.
pub open spec fn text_lines(s: Seq<char>) -> Seq<Seq<char>> {
    let p = newline_pieces(s);
    let ended = p.drop_last().map_values(|l: Seq<char>| strip_cr(l));
    if p.last().len() == 0 {
        ended
    } else {
        ended.push(p.last())
    }
}

/// The last `limit` items of `s`, or all of them if there are fewer.
pub open spec fn last_n<A>(s: Seq<A>, limit: nat) -> Seq<A> {
    if s.len() <= limit {
        s
    } else {
        s.skip(s.len() - limit)
    }
}

proof fn lemma_pieces_nonempty(s: Seq<char>)
    ensures
        newline_pieces(s).len() >= 1,
    decreases s.len(),
{
    if s.len() > 0 {
        lemma_pieces_nonempty(s.drop_last());
    }
}

/// Splits `content` into its lines, as `str::lines` does.
pub fn split_lines(content: &str) -> (lines: Vec<String>)
    ensures
        lines@.map_values(|l: String| l@) == text_lines(content@),
{
    let ghost s = content@;
    let mut done: Vec<String> = Vec::new();
    let mut cur: Vec<char> = Vec::new();
    let ghost mut n: int = 0;
    for c in it: content.chars()
        invariant
            s == content@,
            it.seq() == s,
            n == it.index(),
            n <= s.len(),
            done@.map_values(|l: String| l@) == newline_pieces(s.take(n)).drop_last().map_values(
                |l: Seq<char>| strip_cr(l),
            ),
            cur@ == newline_pieces(s.take(n)).last(),
    {
        let ghost pre = s.take(n);
        proof {
            lemma_pieces_nonempty(pre);
            assert(s.take(n + 1).drop_last() =~= pre);
            assert(s.take(n + 1).last() == c);
        }
        let ghost p = newline_pieces(pre);
        if c == '\n' {
            let mut line = cur;
            let len = line.len();
            if len > 0 && line[len - 1] == '\r' {
                line.pop();
            }
            assert(line@ == strip_cr(p.last()));
            let ghost before = done@;
            done.push(string_from_chars(line));
            cur = Vec::new();
            proof {
                assert(newline_pieces(s.take(n + 1)) == p.push(Seq::empty()));
                assert(p.push(Seq::<char>::empty()).drop_last() =~= p);
                assert(p =~= p.drop_last().push(p.last()));
                assert(p.map_values(|l: Seq<char>| strip_cr(l)) =~= p.drop_last().map_values(
                    |l: Seq<char>| strip_cr(l),
                ).push(strip_cr(p.last())));
                assert(done@.map_values(|l: String| l@) =~= before.map_values(|l: String| l@).push(
                    strip_cr(p.last()),
                ));
            }
        } else {
            cur.push(c);
            proof {
                let q = p.update(p.len() - 1, p.last().push(c));
                assert(newline_pieces(s.take(n + 1)) == q);
                assert(q.drop_last() =~= p.drop_last());
            }
        }
        proof {
            n = n + 1;
        }
    }
    proof {
        assert(s.take(n) =~= s);
        lemma_pieces_nonempty(s);
    }
    let ghost p = newline_pieces(s);
    if cur.len() > 0 {
        let ghost before = done@;
        done.push(string_from_chars(cur));
        assert(done@.map_values(|l: String| l@) =~= before.map_values(|l: String| l@).push(p.last()));
    }
    done
}

/// The last `limit` lines of `content`, or all of them if there are fewer.
pub fn tail_lines(content: &str, limit: usize) -> (lines: Vec<String>)
    ensures
        lines@.map_values(|l: String| l@) == last_n(text_lines(content@), limit as nat),
{
    let all = split_lines(content);
    let ghost v = all@.map_values(|l: String| l@);
    let start = all.len().saturating_sub(limit);
    let mut out: Vec<String> = Vec::new();
    let mut i: usize = start;
    while i < all.len()
        invariant
            start <= i <= all@.len(),
            start == if all@.len() > limit { all@.len() - limit } else { 0 },
            v == all@.map_values(|l: String| l@),
            out@.map_values(|l: String| l@) == v.subrange(start as int, i as int),
        decreases all@.len() - i,
    {
        let ghost before = out@;
        let line = all[i].clone();
        assert(line@ == v[i as int]);
        out.push(line);
        assert(out@ =~= before.push(line));
        assert(out@.map_values(|l: String| l@) =~= before.map_values(|l: String| l@).push(line@));
        assert(v.subrange(start as int, i + 1) =~= v.subrange(start as int, i as int).push(v[i as int]));
        i = i + 1;
    }
    assert(v.subrange(start as int, all@.len() as int) =~= last_n(v, limit as nat));
    out
}

/// The line written to the log for `msg` at time `stamp`: `[stamp] msg`.
pub open spec fn log_line_text(stamp: Seq<char>, msg: Seq<char>) -> Seq<char> {
    seq!['['] + stamp + seq![']', ' '] + msg
}

/// Formats the log line for `msg` at time `stamp`.
pub fn format_log_line(stamp: &str, msg: &str) -> (line: String)
    ensures
        line@ == log_line_text(stamp@, msg@),
        line@.len() == stamp@.len() + msg@.len() + 3,
        line@[0] == '[',
        line@.subrange(1, stamp@.len() + 1 as int) == stamp@,
        line@[stamp@.len() + 1 as int] == ']',
        line@[stamp@.len() + 2 as int] == ' ',
        line@.subrange(stamp@.len() + 3 as int, line@.len() as int) == msg@,
{
    let mut line = "[".to_owned();
    line.append(stamp);
    line.append("] ");
    line.append(msg);
    proof {
        reveal_strlit("[");
        reveal_strlit("] ");
    }
    line
}

/// A log line holds the whole message, every line of it, after its
/// bracketed time stamp: `[`, the stamp, `] `, then the message unchanged.
pub proof fn law_log_line_keeps_whole_message(stamp: Seq<char>, msg: Seq<char>)
    ensures
        log_line_text(stamp, msg).len() == stamp.len() + msg.len() + 3,
        log_line_text(stamp, msg).take(1) == seq!['['],
        log_line_text(stamp, msg).subrange(1, stamp.len() + 1int) == stamp,
        log_line_text(stamp, msg).subrange(stamp.len() + 1int, stamp.len() + 3int) == seq![']', ' '],
        log_line_text(stamp, msg).skip(stamp.len() + 3int) == msg,
{
    let l = log_line_text(stamp, msg);
    assert(l.take(1) =~= seq!['[']);
    assert(l.subrange(1, stamp.len() + 1int) =~= stamp);
    assert(l.subrange(stamp.len() + 1int, stamp.len() + 3int) =~= seq![']', ' ']);
    assert(l.skip(stamp.len() + 3int) =~= msg);
}

} // verus!
