use vstd::prelude::*;
use crate::board_move::BoardMove;
use crate::pieces::Color;
use crate::board_move::spec_parse_move;
use crate::fen::{parse_unsigned, parse_unsigned_exec, chars_of};
use crate::text::str_eq;

verus! {

/// Limits under which a search runs.
#[derive(Clone, Debug)]
pub struct SearchLimits {
    pub max_depth: Option<usize>,
    pub max_nodes: Option<u64>,
    pub max_time_ms: Option<u64>,
    pub moves: Vec<BoardMove>,
    pub infinite: bool,
    /// Whether to search for the full time even when only one move is possible.
    pub exact: bool,
}

/// Parameters of a UCI `go` command.
#[derive(Clone, Debug)]
pub struct SearchParams {
    /// Search to this depth.
    pub depth: Option<usize>,
    /// Search exactly this many milliseconds.
    pub movetime: Option<u64>,
    /// White's remaining clock time in milliseconds.
    pub wtime: Option<u64>,
    /// Black's remaining clock time in milliseconds.
    pub btime: Option<u64>,
    /// White's increment per move in milliseconds.
    pub winc: Option<u64>,
    /// Black's increment per move in milliseconds.
    pub binc: Option<u64>,
    /// Moves until the next time control.
    pub movestogo: Option<usize>,
    /// Search only this many nodes.
    pub nodes: Option<u64>,
    /// Search until told to stop.
    pub infinite: bool,
    /// Search in ponder mode.
    pub ponder: bool,
    /// Restrict the search to these moves.
    pub searchmoves: Vec<BoardMove>,
}

/// The time a search may spend: a fixed move time less the overhead; no
/// limit for infinite searches; otherwise the side's remaining time less the
/// overhead spread over the moves to go (30 when unknown) plus eight tenths
/// of the increment, at least 10 ms, less the overhead but never more than
/// half of the allocation; no limit without clock information.
pub open spec fn move_time(p: SearchParams, color: Color, move_overhead: u64) -> Option<u64> {
    if p.movetime is Some {
        Some(if p.movetime.unwrap() >= move_overhead {
            (p.movetime.unwrap() - move_overhead) as u64
        } else {
            0u64
        })
    } else if p.infinite {
        None
    } else {
        let time_left = if color == Color::White {
            p.wtime
        } else {
            p.btime
        };
        let inc: int = if color == Color::White {
            if p.winc is Some { p.winc.unwrap() as int } else { 0 }
        } else {
            if p.binc is Some { p.binc.unwrap() as int } else { 0 }
        };
        match time_left {
            Some(time) => {
                let moves_remaining: int = if p.movestogo is Some {
                    p.movestogo.unwrap() as int
                } else {
                    30
                };
                let available: int = if time >= move_overhead {
                    time - move_overhead
                } else {
                    0
                };
                let base = available / (if moves_remaining < 1 { 1 } else { moves_remaining });
                let allocated = base + (inc * 8 / 10);
                let floor = if allocated < 10 { 10 } else { allocated };
                let cut = if move_overhead < allocated / 2 { move_overhead as int } else { allocated / 2 };
                Some((if floor >= cut { floor - cut } else { 0 }) as u64)
            },
            None => None,
        }
    }
}

/// Whether the time allocation stays within 64 bits: the increment times
/// eight, and the share of the remaining time plus eight tenths of the
/// increment.
pub open spec fn move_time_fits(p: SearchParams, color: Color, move_overhead: u64) -> bool {
    let inc: int = if color == Color::White {
        if p.winc is Some { p.winc.unwrap() as int } else { 0 }
    } else {
        if p.binc is Some { p.binc.unwrap() as int } else { 0 }
    };
    let time_left = if color == Color::White {
        p.wtime
    } else {
        p.btime
    };
    p.movetime is None && !p.infinite && time_left is Some ==> {
        let time = time_left.unwrap();
        let moves_remaining: int = if p.movestogo is Some {
            p.movestogo.unwrap() as int
        } else {
            30
        };
        let available: int = if time >= move_overhead {
            time - move_overhead
        } else {
            0
        };
        let base = available / (if moves_remaining < 1 { 1 } else { moves_remaining });
        &&& inc * 8 <= u64::MAX
        &&& base + inc * 8 / 10 <= u64::MAX
    }
}

impl SearchParams {
    /// No limits at all.
    pub fn default() -> (r: Self)
        ensures
            r.depth is None,
            r.movetime is None,
            r.wtime is None,
            r.btime is None,
            r.winc is None,
            r.binc is None,
            r.movestogo is None,
            r.nodes is None,
            !r.infinite,
            !r.ponder,
            r.searchmoves@.len() == 0,
    {
        SearchParams {
            depth: None,
            movetime: None,
            wtime: None,
            btime: None,
            winc: None,
            binc: None,
            movestogo: None,
            nodes: None,
            infinite: false,
            ponder: false,
            searchmoves: Vec::new(),
        }
    }

    /// How many milliseconds to spend on the next move for `color`.
    pub fn calculate_move_time(&self, color: Color, move_overhead: u64) -> (r: Option<u64>)
        requires
            move_time_fits(*self, color, move_overhead),
        ensures
            r == move_time(*self, color, move_overhead),
    {
        if let Some(movetime) = self.movetime {
            return Some(movetime.saturating_sub(move_overhead));
        }
        if self.infinite {
            return None;
        }
        let (time_left, increment) = match color {
            Color::White => (
                self.wtime,
                match self.winc {
                    Some(i) => i,
                    None => 0,
                },
            ),
            Color::Black => (
                self.btime,
                match self.binc {
                    Some(i) => i,
                    None => 0,
                },
            ),
        };
        if let Some(time) = time_left {
            let moves_remaining = match self.movestogo {
                Some(m) => m as u64,
                None => 30,
            };
            let available_time = time.saturating_sub(move_overhead);
            let divisor = if moves_remaining < 1 {
                1
            } else {
                moves_remaining
            };
            let base_time = available_time / divisor;
            assert(base_time <= available_time) by (nonlinear_arith)
                requires
                    base_time == available_time / divisor,
                    divisor >= 1,
            ;
            let allocated_time = base_time + (increment * 8 / 10);
            let floor = if allocated_time < 10 {
                10
            } else {
                allocated_time
            };
            let cut = if move_overhead < allocated_time / 2 {
                move_overhead
            } else {
                allocated_time / 2
            };
            Some(floor.saturating_sub(cut))
        } else {
            None
        }
    }
}

/// What a `go` command sets, as plain values.
pub struct GoSettings {
    pub depth: Option<usize>,
    pub movetime: Option<u64>,
    pub wtime: Option<u64>,
    pub btime: Option<u64>,
    pub winc: Option<u64>,
    pub binc: Option<u64>,
    pub movestogo: Option<usize>,
    pub nodes: Option<u64>,
    pub infinite: bool,
    pub ponder: bool,
    pub searchmoves: Seq<BoardMove>,
}

/// Settings before any parameter is read.
pub open spec fn go_default() -> GoSettings {
    GoSettings {
        depth: None,
        movetime: None,
        wtime: None,
        btime: None,
        winc: None,
        binc: None,
        movestogo: None,
        nodes: None,
        infinite: false,
        ponder: false,
        searchmoves: Seq::empty(),
    }
}

/// The settings a parameter list gives.
pub open spec fn go_view(p: SearchParams) -> GoSettings {
    GoSettings {
        depth: p.depth,
        movetime: p.movetime,
        wtime: p.wtime,
        btime: p.btime,
        winc: p.winc,
        binc: p.binc,
        movestogo: p.movestogo,
        nodes: p.nodes,
        infinite: p.infinite,
        ponder: p.ponder,
        searchmoves: p.searchmoves@,
    }
}

/// A number of type `usize` as `str::parse` reads it.
pub open spec fn usize_value(t: Seq<char>) -> Option<usize> {
    match parse_unsigned(t, usize::MAX as int) {
        Some(v) => Some(v as usize),
        None => None,
    }
}

/// A number of type `u64` as `str::parse` reads it.
pub open spec fn u64_value(t: Seq<char>) -> Option<u64> {
    match parse_unsigned(t, u64::MAX as int) {
        Some(v) => Some(v as u64),
        None => None,
    }
}

/// The words that end a list of search moves.
pub open spec fn go_keyword(t: Seq<char>) -> bool {
    ||| t == "depth"@
    ||| t == "movetime"@
    ||| t == "wtime"@
    ||| t == "btime"@
    ||| t == "winc"@
    ||| t == "binc"@
    ||| t == "movestogo"@
    ||| t == "nodes"@
    ||| t == "infinite"@
    ||| t == "ponder"@
}

/// The move a search-move word names, if any.
pub open spec fn search_move(t: Seq<char>) -> Option<BoardMove> {
    spec_parse_move(t)
}

/// Reads the parameters from position `i` on: each known word sets its
/// setting from the word after it (a number that does not read clears it),
/// `infinite` and `ponder` set their flags, `searchmoves` collects moves,
/// and unknown words are skipped.
pub open spec fn go_scan(ps: Seq<Seq<char>>, i: int, acc: GoSettings) -> GoSettings
    decreases ps.len() - i, 0int,
{
    if i < 0 || i >= ps.len() {
        acc
    } else {
        let p = ps[i];
        let has_value = i + 1 < ps.len();
        let v = ps[i + 1];
        let next = if has_value {
            i + 2
        } else {
            i + 1
        };
        if p == "depth"@ {
            go_scan(ps, next, if has_value { GoSettings { depth: usize_value(v), ..acc } } else { acc })
        } else if p == "movetime"@ {
            go_scan(ps, next, if has_value { GoSettings { movetime: u64_value(v), ..acc } } else { acc })
        } else if p == "wtime"@ {
            go_scan(ps, next, if has_value { GoSettings { wtime: u64_value(v), ..acc } } else { acc })
        } else if p == "btime"@ {
            go_scan(ps, next, if has_value { GoSettings { btime: u64_value(v), ..acc } } else { acc })
        } else if p == "winc"@ {
            go_scan(ps, next, if has_value { GoSettings { winc: u64_value(v), ..acc } } else { acc })
        } else if p == "binc"@ {
            go_scan(ps, next, if has_value { GoSettings { binc: u64_value(v), ..acc } } else { acc })
        } else if p == "movestogo"@ {
            go_scan(ps, next, if has_value { GoSettings { movestogo: usize_value(v), ..acc } } else { acc })
        } else if p == "nodes"@ {
            go_scan(ps, next, if has_value { GoSettings { nodes: u64_value(v), ..acc } } else { acc })
        } else if p == "infinite"@ {
            go_scan(ps, i + 1, GoSettings { infinite: true, ..acc })
        } else if p == "ponder"@ {
            go_scan(ps, i + 1, GoSettings { ponder: true, ..acc })
        } else if p == "searchmoves"@ {
            go_moves(ps, i + 1, acc)
        } else {
            go_scan(ps, i + 1, acc)
        }
    }
}

/// Collects search moves from position `j` on, up to the next known word,
/// which ends the list and is read as a parameter again.
pub open spec fn go_moves(ps: Seq<Seq<char>>, j: int, acc: GoSettings) -> GoSettings
    decreases ps.len() - j, 1int,
{
    if j < 0 || j >= ps.len() {
        acc
    } else if go_keyword(ps[j]) {
        go_scan(ps, j, acc)
    } else {
        go_moves(
            ps,
            j + 1,
            match search_move(ps[j]) {
                Some(m) => GoSettings { searchmoves: acc.searchmoves.push(m), ..acc },
                None => acc,
            },
        )
    }
}

/// The texts of a list of strings.
pub open spec fn texts(v: Seq<String>) -> Seq<Seq<char>> {
    v.map_values(|s: String| s@)
}

/// Whether a word ends a list of search moves.
fn is_go_keyword(t: &str) -> (r: bool)
    ensures
        r == go_keyword(t@),
{
    str_eq(t, "depth") || str_eq(t, "movetime") || str_eq(t, "wtime") || str_eq(t, "btime")
        || str_eq(t, "winc") || str_eq(t, "binc") || str_eq(t, "movestogo") || str_eq(t, "nodes")
        || str_eq(t, "infinite") || str_eq(t, "ponder")
}

/// Reads a `usize` the way `str::parse` does.
fn parse_usize(t: &str) -> (r: Option<usize>)
    ensures
        r == usize_value(t@),
{
    let cs = chars_of(t);
    match parse_unsigned_exec(cs.as_slice(), usize::MAX as u64) {
        Some(v) => Some(v as usize),
        None => None,
    }
}

/// Reads a `u64` the way `str::parse` does.
fn parse_u64(t: &str) -> (r: Option<u64>)
    ensures
        r == u64_value(t@),
{
    let cs = chars_of(t);
    parse_unsigned_exec(cs.as_slice(), u64::MAX)
}

impl SearchParams {
    /// Reads the parameters of a UCI `go` command.
    pub fn parse(params: Vec<String>) -> (r: Self)
        ensures
            go_view(r) == go_scan(texts(params@), 0, go_default()),
    {
        let mut search_params = SearchParams::default();
        let ghost ps = texts(params@);
        let n = params.len();
        let mut i: usize = 0;
        assert(search_params.searchmoves@ =~= Seq::<BoardMove>::empty());
        assert(go_view(search_params) == go_default());
        while i < n
            invariant
                n == params@.len(),
                ps == texts(params@),
                ps.len() == n,
                i <= n,
                go_scan(ps, i as int, go_view(search_params)) == go_scan(ps, 0, go_default()),
            decreases n - i,
        {
            let param = params[i].as_str();
            assert(param@ == ps[i as int]);
            let has_value = i + 1 < n;
            let ghost acc = go_view(search_params);
            if str_eq(param, "depth") {
                if has_value {
                    search_params.depth = parse_usize(params[i + 1].as_str());
                    i = i + 2;
                } else {
                    i = i + 1;
                }
            } else if str_eq(param, "movetime") {
                if has_value {
                    search_params.movetime = parse_u64(params[i + 1].as_str());
                    i = i + 2;
                } else {
                    i = i + 1;
                }
            } else if str_eq(param, "wtime") {
                if has_value {
                    search_params.wtime = parse_u64(params[i + 1].as_str());
                    i = i + 2;
                } else {
                    i = i + 1;
                }
            } else if str_eq(param, "btime") {
                if has_value {
                    search_params.btime = parse_u64(params[i + 1].as_str());
                    i = i + 2;
                } else {
                    i = i + 1;
                }
            } else if str_eq(param, "winc") {
                if has_value {
                    search_params.winc = parse_u64(params[i + 1].as_str());
                    i = i + 2;
                } else {
                    i = i + 1;
                }
            } else if str_eq(param, "binc") {
                if has_value {
                    search_params.binc = parse_u64(params[i + 1].as_str());
                    i = i + 2;
                } else {
                    i = i + 1;
                }
            } else if str_eq(param, "movestogo") {
                if has_value {
                    search_params.movestogo = parse_usize(params[i + 1].as_str());
                    i = i + 2;
                } else {
                    i = i + 1;
                }
            } else if str_eq(param, "nodes") {
                if has_value {
                    search_params.nodes = parse_u64(params[i + 1].as_str());
                    i = i + 2;
                } else {
                    i = i + 1;
                }
            } else if str_eq(param, "infinite") {
                search_params.infinite = true;
                i = i + 1;
            } else if str_eq(param, "ponder") {
                search_params.ponder = true;
                i = i + 1;
            } else if str_eq(param, "searchmoves") {
                let mut j: usize = i + 1;
                let mut done = false;
                while j < n && !done
                    invariant
                        n == params@.len(),
                        ps == texts(params@),
                        ps.len() == n,
                        i < j <= n,
                        !done ==> go_moves(ps, j as int, go_view(search_params)) == go_scan(ps, 0, go_default()),
                        done ==> go_scan(ps, j as int, go_view(search_params)) == go_scan(ps, 0, go_default()),
                    decreases n - j, if done { 0int } else { 1int },
                {
                    let move_str = params[j].as_str();
                    assert(move_str@ == ps[j as int]);
                    if is_go_keyword(move_str) {
                        done = true;
                    } else {
                        let ghost before = go_view(search_params);
                        if let Some(board_move) = crate::board_move::parse(move_str) {
                            search_params.searchmoves.push(board_move);
                            assert(go_view(search_params) == GoSettings {
                                searchmoves: before.searchmoves.push(board_move),
                                ..before
                            });
                        }
                        j = j + 1;
                    }
                }
                if !done {
                    assert(go_moves(ps, j as int, go_view(search_params)) == go_view(search_params));
                    assert(go_scan(ps, j as int, go_view(search_params)) == go_view(search_params));
                }
                i = j;
            } else {
                i = i + 1;
            }
        }
        search_params
    }
}


/// The clock time spent on a move, in whole milliseconds, from the side's
/// remaining time `t`, the overhead `o` and the number of moves `m` it is
/// spread over (no increment): the share `(t - o) / m`, at least 10 ms,
/// less the overhead but never more than half the share.
pub open spec fn clock_share_time(t: int, o: int, m: int) -> int {
    let share = (t - o) / m;
    let at_least = if share < 10 {
        10
    } else {
        share
    };
    let cut = if o < share / 2 {
        o
    } else {
        share / 2
    };
    at_least - cut
}

/// With clock time `t >= o` and `m >= 1` moves to go and no increment, the
/// time for a move divides the remaining time by the moves to go, whatever
/// their number.
pub proof fn lemma_move_time_moves_to_go(p: SearchParams, color: Color, o: u64)
    requires
        p.movetime is None,
        !p.infinite,
        (if color == Color::White {
            p.wtime
        } else {
            p.btime
        }) matches Some(t) && t >= o,
        (if color == Color::White {
            p.winc
        } else {
            p.binc
        }) is None,
        p.movestogo matches Some(m) && m >= 1,
    ensures
        ({
            let t = (if color == Color::White {
                p.wtime
            } else {
                p.btime
            }).unwrap();
            move_time(p, color, o) == Some(clock_share_time(t as int, o as int, p.movestogo.unwrap() as int) as u64)
        }),
{
}

/// Without a number of moves to go, the time is spread as over 30 moves.
pub proof fn lemma_move_time_default_moves(p: SearchParams, color: Color, o: u64)
    requires
        p.movestogo is None,
    ensures
        move_time(p, color, o) == move_time(SearchParams { movestogo: Some(30), ..p }, color, o),
{
}

/// A fixed move time is used as given, less the overhead (not below zero),
/// whatever the clocks, increments, moves to go or infinite flag say.
pub proof fn lemma_move_time_fixed(p: SearchParams, color: Color, o: u64)
    requires
        p.movetime matches Some(mt),
    ensures
        move_time(p, color, o) == Some(
            (if p.movetime.unwrap() >= o {
                p.movetime.unwrap() - o
            } else {
                0
            }) as u64,
        ),
{
}

/// An infinite search without a fixed move time, or a search without the
/// side's clock, has no time limit.
pub proof fn lemma_move_time_unlimited(p: SearchParams, color: Color, o: u64)
    requires
        p.movetime is None,
        p.infinite || (if color == Color::White {
            p.wtime
        } else {
            p.btime
        }) is None,
    ensures
        move_time(p, color, o) is None,
{
}

/// Black's time is computed from black's clock and increment exactly as
/// white's is from white's.
pub proof fn lemma_move_time_colors(p: SearchParams, o: u64)
    ensures
        move_time(p, Color::Black, o) == move_time(
            SearchParams { wtime: p.btime, winc: p.binc, btime: p.wtime, binc: p.winc, ..p },
            Color::White,
            o,
        ),
{
}

/// Each increment adds eight tenths of itself to the share before the
/// floor and the overhead cut.
pub proof fn lemma_move_time_increment(p: SearchParams, o: u64, i: u64)
    requires
        p.movetime is None,
        !p.infinite,
        p.wtime matches Some(t) && t >= o,
        p.winc == Some(i),
        p.movestogo matches Some(m) && m >= 1,
    ensures
        ({
            let share = (p.wtime.unwrap() - o) / (p.movestogo.unwrap() as int) + i * 8 / 10;
            move_time(p, Color::White, o) == Some(
                ((if share < 10 {
                    10
                } else {
                    share
                }) - (if o < share / 2 {
                    o as int
                } else {
                    share / 2
                })) as u64,
            )
        }),
{
}

} // verus!
