//! The command line: which step to run and on which files.

use vstd::prelude::*;

verus! {

/// The step that a run performs.
#[derive(Debug, Clone, Copy, PartialEq, Eq, Structural)]
pub enum Action {
    DownloadCfaData,
    DecideConnections,
    FormGraph,
    RunYen,
    Help,
    Test,
}

/// The parsed command line.
pub struct Arg {
    pub dir: String,
    pub output_path: String,
    pub action: Action,
    pub input_two: Option<String>,
}

/// The step that a flag names; an unknown flag asks for help.
pub open spec fn action_for(flag: Seq<char>) -> Action {
    if flag == "-download_cfa_data"@ || flag == "-dcd"@ {
        Action::DownloadCfaData
    } else if flag == "-decide_connections"@ || flag == "-dc"@ {
        Action::DecideConnections
    } else if flag == "-form_graph"@ || flag == "-fg"@ {
        Action::FormGraph
    } else if flag == "-run_yen"@ || flag == "-ry"@ {
        Action::RunYen
    } else if flag == "-test"@ {
        Action::Test
    } else {
        Action::Help
    }
}

/// The step that `flag` names.
pub fn action_of(flag: &String) -> (r: Action)
    ensures
        r == action_for(flag@),
{
    if *flag == "-download_cfa_data".to_owned() || *flag == "-dcd".to_owned() {
        Action::DownloadCfaData
    } else if *flag == "-decide_connections".to_owned() || *flag == "-dc".to_owned() {
        Action::DecideConnections
    } else if *flag == "-form_graph".to_owned() || *flag == "-fg".to_owned() {
        Action::FormGraph
    } else if *flag == "-run_yen".to_owned() || *flag == "-ry".to_owned() {
        Action::RunYen
    } else if *flag == "-test".to_owned() {
        Action::Test
    } else {
        Action::Help
    }
}

impl Arg {
    /// Parses `args`: the program name, a flag naming the step, the output
    /// path, the input path and an optional second input path. Fewer than
    /// two arguments are refused.
    pub fn new(args: &[String]) -> (r: Result<Arg, &'static str>)
        requires
            args@.len() < 2 || args@.len() >= 4,
        ensures
            r is Err <==> args@.len() < 2,
            r matches Err(e) ==> e@ == "not enough arguments"@,
            r matches Ok(a) ==> {
                &&& a.action == action_for(args@[1]@)
                &&& a.output_path@ == args@[2]@
                &&& a.dir@ == args@[3]@
                &&& args@.len() > 4 ==> (a.input_two matches Some(s) && s@ == args@[4]@)
                &&& args@.len() <= 4 ==> a.input_two is None
            },
    {
        if args.len() < 2 {
            return Err("not enough arguments");
        }
        let action = action_of(&args[1]);
        let output_path = args[2].clone();
        let dir = args[3].clone();
        let input_two: Option<String> = if args.len() > 4 {
            Some(args[4].clone())
        } else {
            None
        };
        Ok(Arg { action, output_path, dir, input_two })
    }
}

/// The texts of `items` joined into one, with `sep` between neighbours.
pub open spec fn join_with(items: Seq<Seq<char>>, sep: Seq<char>) -> Seq<char>
    decreases items.len(),
{
    if items.len() == 0 {
        Seq::empty()
    } else if items.len() == 1 {
        items[0]
    } else {
        join_with(items.drop_last(), sep) + sep + items.last()
    }
}

/// The pieces of `s[i..]` between the separators ",\n", read from the left;
/// there is always at least one piece, possibly empty.
pub open spec fn split_from(s: Seq<char>, i: int) -> Seq<Seq<char>>
    decreases s.len() - i,
{
    if i >= s.len() {
        seq![Seq::empty()]
    } else if i + 1 < s.len() && s[i] == ',' && s[i + 1] == '\n' {
        seq![Seq::<char>::empty()] + split_from(s, i + 2)
    } else {
        let rest = split_from(s, i + 1);
        rest.update(0, seq![s[i]] + rest[0])
    }
}

/// The pieces are never fewer than one.
proof fn lemma_split_from_len(s: Seq<char>, i: int)
    ensures
        split_from(s, i).len() >= 1,
    decreases s.len() - i,
{
    if i < s.len() {
        if i + 1 < s.len() && s[i] == ',' && s[i + 1] == '\n' {
            lemma_split_from_len(s, i + 2);
        } else {
            lemma_split_from_len(s, i + 1);
        }
    }
}

/// Calls `String::push`, which appends one character to the string.
#[verifier::external_body]
fn push_char(s: &mut String, c: char)
    ensures
        final(s)@ == old(s)@.push(c),
{
    s.push(c)
}

/// The zip codes that the given file contents list: the contents are joined
/// with ",\n" and split again at every ",\n".
pub fn zip_codes_from(contents: &Vec<String>) -> (r: Vec<String>)
    ensures
        r.deep_view() == split_from(join_with(contents.deep_view(), seq![',', '\n']), 0),
{
    let ghost cv = contents.deep_view();
    let ghost sep = seq![',', '\n'];
    let mut joined: Vec<char> = Vec::new();
    let mut f: usize = 0;
    proof {
        assert(cv.take(0) =~= Seq::<Seq<char>>::empty());
    }
    while f < contents.len()
        invariant
            cv == contents.deep_view(),
            sep == seq![',', '\n'],
            f <= cv.len(),
            joined@ == join_with(cv.take(f as int), sep),
        decreases contents.len() - f,
    {
        let ghost before = joined@;
        if f > 0 {
            joined.push(',');
            joined.push('\n');
        }
        let ghost mid = joined@;
        let content = &contents[f];
        for c in it: content.chars()
            invariant
                it.seq() == content@,
                joined@ == mid + content@.take(it.index() as int),
        {
            let ghost k = it.index();
            assert(c == content@[k as int]);
            joined.push(c);
            proof {
                assert(content@.take(k + 1) =~= content@.take(k as int).push(c));
            }
        }
        proof {
            assert(content@.take(content@.len() as int) =~= content@);
            assert(cv.take(f + 1).drop_last() =~= cv.take(f as int));
            assert(cv.take(f + 1).last() == content@);
            if f > 0 {
                assert(joined@ =~= before + sep + content@);
            } else {
                assert(cv.take(f + 1) =~= seq![content@]);
                assert(joined@ =~= content@);
            }
        }
        f = f + 1;
    }
    proof {
        assert(cv.take(cv.len() as int) =~= cv);
    }
    let ghost s = joined@;
    let n = joined.len();
    let mut pieces: Vec<String> = Vec::new();
    let mut cur = String::new();
    let mut i: usize = 0;
    proof {
        lemma_split_from_len(s, 0);
        assert(split_from(s, 0).update(0, Seq::<char>::empty() + split_from(s, 0)[0]) =~= split_from(s, 0));
        assert(pieces.deep_view() + split_from(s, 0) =~= split_from(s, 0));
    }
    while i < n
        invariant
            s == joined@,
            n == s.len(),
            i <= n,
            split_from(s, 0) == pieces.deep_view() + split_from(s, i as int).update(
                0,
                cur@ + split_from(s, i as int)[0],
            ),
        decreases n - i,
    {
        let ghost done = pieces.deep_view();
        if i + 1 < n && joined[i] == ',' && joined[i + 1] == '\n' {
            let ghost rest = split_from(s, i + 2);
            proof {
                lemma_split_from_len(s, i + 2);
                assert(split_from(s, i as int) == seq![Seq::<char>::empty()] + rest);
                assert((seq![Seq::<char>::empty()] + rest).update(0, cur@ + Seq::<char>::empty())
                    =~= seq![cur@] + rest);
                assert(cur@ + Seq::<char>::empty() =~= cur@);
            }
            let piece = cur;
            pieces.push(piece);
            cur = String::new();
            proof {
                assert(pieces.deep_view() =~= done.push(piece@));
                assert(rest.update(0, cur@ + rest[0]) =~= rest);
                assert(done + (seq![piece@] + rest) =~= pieces.deep_view() + rest);
            }
            i = i + 2;
        } else {
            let ghost rest = split_from(s, i + 1);
            let c = joined[i];
            proof {
                lemma_split_from_len(s, i + 1);
                assert(split_from(s, i as int) == rest.update(0, seq![c] + rest[0]));
                assert(cur@ + (seq![c] + rest[0]) =~= cur@.push(c) + rest[0]);
                assert(rest.update(0, seq![c] + rest[0]).update(0, cur@ + (seq![c] + rest[0]))
                    =~= rest.update(0, cur@.push(c) + rest[0]));
            }
            push_char(&mut cur, c);
            i = i + 1;
        }
    }
    let ghost done = pieces.deep_view();
    let last = cur;
    pieces.push(last);
    proof {
        assert(split_from(s, n as int) == seq![Seq::<char>::empty()]);
        assert(last@ + Seq::<char>::empty() =~= last@);
        assert(pieces.deep_view() =~= done.push(last@));
    }
    pieces
}

} // verus!
