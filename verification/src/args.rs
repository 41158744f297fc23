use vstd::prelude::*;

use crate::text::str_equal;

verus! {

/// What a renderer's command line names: the settings file, and the texts that follow
/// each `--time` flag and each `--duration` flag, in the order they appear.
pub struct RunArgs {
    pub dat_path: String,
    pub time: Vec<String>,
    pub duration: Vec<String>,
}

/// The flag whose next argument is the warm-up time.
pub open spec fn time_flag() -> Seq<char> {
    "--time"@
}

/// The flag whose next argument is the duration.
pub open spec fn duration_flag() -> Seq<char> {
    "--duration"@
}

/// The settings file read when the command line names none.
pub open spec fn default_dat_path() -> Seq<char> {
    "tweaks.dat"@
}

/// Reads `args` from position `i` on, starting from the settings file `path` and the flag
/// values `time` and `duration` read so far. A flag takes the argument after it; a flag
/// that ends the line is ignored; any other argument names the settings file, the last
/// such argument winning.
pub open spec fn scan_args(
    args: Seq<Seq<char>>,
    i: int,
    path: Seq<char>,
    time: Seq<Seq<char>>,
    duration: Seq<Seq<char>>,
) -> (Seq<char>, Seq<Seq<char>>, Seq<Seq<char>>)
    decreases args.len() - i,
{
    if i >= args.len() {
        (path, time, duration)
    } else if args[i] == time_flag() {
        if i + 1 < args.len() {
            scan_args(args, i + 2, path, time.push(args[i + 1]), duration)
        } else {
            (path, time, duration)
        }
    } else if args[i] == duration_flag() {
        if i + 1 < args.len() {
            scan_args(args, i + 2, path, time, duration.push(args[i + 1]))
        } else {
            (path, time, duration)
        }
    } else {
        scan_args(args, i + 1, args[i], time, duration)
    }
}

/// The reading of a whole command line, whose first argument is the program's name.
pub open spec fn command_line(args: Seq<Seq<char>>) -> (Seq<char>, Seq<Seq<char>>, Seq<Seq<char>>) {
    scan_args(args, 1, default_dat_path(), Seq::empty(), Seq::empty())
}

/// Reading depends only on the arguments still to come: two command lines that agree from
/// positions `i` and `j` on read the same from there.
proof fn lemma_scan_same_rest(
    x: Seq<Seq<char>>,
    i: int,
    y: Seq<Seq<char>>,
    j: int,
    path: Seq<char>,
    time: Seq<Seq<char>>,
    duration: Seq<Seq<char>>,
)
    requires
        0 <= i <= x.len(),
        0 <= j <= y.len(),
        x.skip(i) == y.skip(j),
    ensures
        scan_args(x, i, path, time, duration) == scan_args(y, j, path, time, duration),
    decreases x.len() - i,
{
    assert(x.len() - i == x.skip(i).len());
    assert(y.len() - j == y.skip(j).len());
    if i < x.len() {
        assert(x[i] == x.skip(i)[0]);
        assert(y[j] == y.skip(j)[0]);
        if i + 1 < x.len() {
            assert(x[i + 1] == x.skip(i)[1]);
            assert(y[j + 1] == y.skip(j)[1]);
        }
        if i + 2 <= x.len() {
            assert(x.skip(i + 2) =~= x.skip(i).skip(2));
            assert(y.skip(j + 2) =~= y.skip(j).skip(2));
            lemma_scan_same_rest(x, i + 2, y, j + 2, path, time.push(x[i + 1]), duration);
            lemma_scan_same_rest(x, i + 2, y, j + 2, path, time, duration.push(x[i + 1]));
        }
        assert(x.skip(i + 1) =~= x.skip(i).skip(1));
        assert(y.skip(j + 1) =~= y.skip(j).skip(1));
        lemma_scan_same_rest(x, i + 1, y, j + 1, x[i], time, duration);
    }
}

/// Values read earlier stay in front: starting with `t0` and `d0` already read gives what
/// starting with nothing gives, with `t0` and `d0` in front.
proof fn lemma_scan_keeps_earlier(
    x: Seq<Seq<char>>,
    i: int,
    path: Seq<char>,
    t0: Seq<Seq<char>>,
    time: Seq<Seq<char>>,
    d0: Seq<Seq<char>>,
    duration: Seq<Seq<char>>,
)
    ensures
        ({
            let r = scan_args(x, i, path, time, duration);
            scan_args(x, i, path, t0 + time, d0 + duration) == (r.0, t0 + r.1, d0 + r.2)
        }),
    decreases x.len() - i,
{
    if i < x.len() {
        if i + 1 < x.len() {
            assert((t0 + time).push(x[i + 1]) =~= t0 + time.push(x[i + 1]));
            assert((d0 + duration).push(x[i + 1]) =~= d0 + duration.push(x[i + 1]));
            lemma_scan_keeps_earlier(x, i + 2, path, t0, time.push(x[i + 1]), d0, duration);
            lemma_scan_keeps_earlier(x, i + 2, path, t0, time, d0, duration.push(x[i + 1]));
        }
        lemma_scan_keeps_earlier(x, i + 1, x[i], t0, time, d0, duration);
    }
}

/// A flag takes exactly the one argument after it: a command line with `--duration v` (or
/// `--time v`) right after the program's name reads as the same command line without them,
/// with `v` first among the durations (or the times); the argument after `v` is read as
/// usual.
pub proof fn lemma_flag_takes_one_argument(
    program: Seq<char>,
    v: Seq<char>,
    rest: Seq<Seq<char>>,
)
    ensures
        ({
            let r = command_line(seq![program] + rest);
            &&& command_line(seq![program, duration_flag(), v] + rest) == (r.0, r.1, seq![v]
                + r.2)
            &&& command_line(seq![program, time_flag(), v] + rest) == (r.0, seq![v] + r.1, r.2)
        }),
{
    let with_d = seq![program, duration_flag(), v] + rest;
    let with_t = seq![program, time_flag(), v] + rest;
    let without = seq![program] + rest;
    let none = Seq::<Seq<char>>::empty();
    assert(with_d[1] == duration_flag());
    assert(with_d[2] == v);
    assert(with_t[1] == time_flag());
    assert(with_t[2] == v);
    assert(time_flag() != duration_flag()) by {
        reveal_strlit("--time");
        reveal_strlit("--duration");
        assert(time_flag().len() != duration_flag().len());
    }
    assert(with_d.skip(3) =~= without.skip(1));
    assert(with_t.skip(3) =~= without.skip(1));
    assert(none.push(v) =~= seq![v]);
    lemma_scan_same_rest(with_d, 3, without, 1, default_dat_path(), none, seq![v]);
    lemma_scan_same_rest(with_t, 3, without, 1, default_dat_path(), seq![v], none);
    lemma_scan_keeps_earlier(without, 1, default_dat_path(), none, none, seq![v], none);
    lemma_scan_keeps_earlier(without, 1, default_dat_path(), seq![v], none, none, none);
    assert(none + none =~= none);
    assert(seq![v] + none =~= seq![v]);
    let r = command_line(without);
    assert(none + r.1 =~= r.1);
    assert(none + r.2 =~= r.2);
}

/// The texts of a list of strings.
pub open spec fn texts(strings: Seq<String>) -> Seq<Seq<char>> {
    strings.map_values(|s: String| s@)
}

/// Splits a command line (program name first) into the settings file and the values
/// given to `--time` and `--duration`.
pub fn parse_args(args: &[String]) -> (parsed: RunArgs)
    ensures
        (parsed.dat_path@, texts(parsed.time@), texts(parsed.duration@)) == command_line(
            texts(args@),
        ),
{
    let ghost all = texts(args@);
    let mut dat_path = "tweaks.dat".to_owned();
    let mut time: Vec<String> = Vec::new();
    let mut duration: Vec<String> = Vec::new();
    let mut i: usize = 1;
    proof {
        assert(texts(time@) =~= Seq::<Seq<char>>::empty());
        assert(texts(duration@) =~= Seq::<Seq<char>>::empty());
    }
    while i < args.len()
        invariant
            all == texts(args@),
            1 <= i,
            scan_args(all, i as int, dat_path@, texts(time@), texts(duration@)) == command_line(
                all,
            ),
        decreases args.len() - i,
    {
        let arg = args[i].as_str();
        if str_equal(arg, "--time") {
            if i + 1 < args.len() {
                let value = args[i + 1].clone();
                proof {
                    assert(texts(time@.push(value)) =~= texts(time@).push(all[i + 1]));
                }
                time.push(value);
                i = i + 2;
            } else {
                i = i + 1;
            }
        } else if str_equal(arg, "--duration") {
            if i + 1 < args.len() {
                let value = args[i + 1].clone();
                proof {
                    assert(texts(duration@.push(value)) =~= texts(duration@).push(all[i + 1]));
                }
                duration.push(value);
                i = i + 2;
            } else {
                i = i + 1;
            }
        } else {
            dat_path = args[i].clone();
            i = i + 1;
        }
    }
    RunArgs { dat_path, time, duration }
}

} // verus!
