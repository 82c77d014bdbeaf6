use vstd::prelude::*;
use vstd::string::{StrSliceExecFns, StringExecFns};

use crate::text::{char_count, chars_of, push_char, views};

verus! {

/// Whether `a` is a dash, one or more slashes and a dash (`-/-`, `-//-`, ...).
pub open spec fn is_slash_word(a: Seq<char>) -> bool {
    &&& a.len() >= 3
    &&& a[0] == '-'
    &&& a.last() == '-'
    &&& forall|i: int| 1 <= i < a.len() - 1 ==> #[trigger] a[i] == '/'
}

/// A slash word with one slash less: how `-//-` stands for a literal `-/-` argument.
pub open spec fn unescaped(a: Seq<char>) -> Seq<char> {
    seq!['-'] + a.subrange(2, a.len() as int)
}

/// The finished commands and the one being gathered, after the arguments `args`: `-/-`
/// ends a command, a longer slash word is an argument with one slash less, any other word
/// an argument as it is.
pub open spec fn gather(args: Seq<Seq<char>>) -> (Seq<Seq<Seq<char>>>, Seq<Seq<char>>)
    decreases args.len(),
{
    if args.len() == 0 {
        (seq![], seq![])
    } else {
        let (done, current) = gather(args.drop_last());
        let a = args.last();
        if is_slash_word(a) && a.len() == 3 {
            (done.push(current), seq![])
        } else if is_slash_word(a) {
            (done, current.push(unescaped(a)))
        } else {
            (done, current.push(a))
        }
    }
}

/// The commands that the arguments describe; a last command with no word is left out.
pub open spec fn commands_of(args: Seq<Seq<char>>) -> Seq<Seq<Seq<char>>> {
    let (done, current) = gather(args);
    if current.len() > 0 {
        done.push(current)
    } else {
        done
    }
}

/// The views of a sequence of commands.
pub open spec fn command_views(cs: Seq<Vec<String>>) -> Seq<Seq<Seq<char>>> {
    cs.map_values(|c: Vec<String>| views(c@))
}

fn slash_word(a: &String) -> (r: bool)
    ensures
        r == is_slash_word(a@),
{
    let cs = chars_of(a.as_str());
    let n = cs.len();
    if n < 3 || cs[0] != '-' || cs[n - 1] != '-' {
        return false;
    }
    let mut i: usize = 1;
    while i < n - 1
        invariant
            cs@ == a@,
            n == cs@.len(),
            n >= 3,
            1 <= i <= n - 1,
            forall|k: int| 1 <= k < i ==> #[trigger] cs@[k] == '/',
        decreases n - 1 - i,
    {
        if cs[i] != '/' {
            return false;
        }
        i = i + 1;
    }
    true
}

/// Splits the words of the command line into commands at each `-/-`.
pub fn split_commands(args: &Vec<String>) -> (r: Vec<Vec<String>>)
    ensures
        command_views(r@) == commands_of(views(args@)),
{
    let mut done: Vec<Vec<String>> = Vec::new();
    let mut current: Vec<String> = Vec::new();
    let mut i: usize = 0;
    proof {
        assert(views(args@).take(0) =~= Seq::<Seq<char>>::empty());
        assert(command_views(done@) =~= Seq::<Seq<Seq<char>>>::empty());
        assert(views(current@) =~= Seq::<Seq<char>>::empty());
    }
    while i < args.len()
        invariant
            0 <= i <= args@.len(),
            gather(views(args@).take(i as int)) == (command_views(done@), views(current@)),
        decreases args@.len() - i,
    {
        let a = &args[i];
        let ghost pre = views(args@).take(i as int);
        proof {
            assert(views(args@).take(i + 1).drop_last() =~= pre);
            assert(views(args@).take(i + 1).last() == a@);
        }
        if slash_word(a) {
            if char_count(a) == 3 {
                done.push(current);
                current = Vec::new();
                proof {
                    assert(command_views(done@) =~= gather(pre).0.push(gather(pre).1));
                    assert(views(current@) =~= Seq::<Seq<char>>::empty());
                }
            } else {
                let mut w = String::new();
                push_char(&mut w, '-');
                let n = a.as_str().unicode_len();
                w.append(a.as_str().substring_char(2, n));
                proof {
                    assert(w@ =~= unescaped(a@));
                    assert(views(current@.push(w)) =~= views(current@).push(w@));
                }
                current.push(w);
            }
        } else {
            let w = a.clone();
            proof {
                assert(views(current@.push(w)) =~= views(current@).push(w@));
            }
            current.push(w);
        }
        i = i + 1;
    }
    proof {
        assert(views(args@).take(args@.len() as int) =~= views(args@));
    }
    if current.len() > 0 {
        done.push(current);
        proof {
            assert(command_views(done@) =~= commands_of(views(args@)));
        }
    }
    done
}

} // verus!
