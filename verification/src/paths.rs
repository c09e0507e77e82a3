use vstd::prelude::*;
use crate::text::{find_first, first_of, pieces, slice_of, split, trim, trimmed, views};

verus! {

/// A server and the servers that it sends to.
pub struct Server {
    pub name: Vec<u8>,
    pub connections: Vec<Vec<u8>>,
}

/// Why a line gives no server.
#[derive(Debug, PartialEq, Eq, Structural)]
pub enum ParseServerError {
    /// The line holds no colon.
    InvalidLineFormat,
}

/// What a server holds, as plain values.
pub struct ServerView {
    pub name: Seq<u8>,
    pub connections: Seq<Seq<u8>>,
}

impl View for Server {
    type V = ServerView;

    /// The value as plain values.
    open spec fn view(&self) -> ServerView {
        ServerView { name: self.name@, connections: views(self.connections@) }
    }
}

/// The server that a line writes: its name before the first colon, and behind it,
/// without the white space around them, the names that it sends to with single
/// spaces between them.
pub open spec fn server_of(line: Seq<u8>) -> Result<ServerView, ParseServerError> {
    let at = first_of(line, 58);
    if at >= line.len() {
        Err(ParseServerError::InvalidLineFormat)
    } else {
        Ok(
            ServerView {
                name: line.take(at),
                connections: pieces(trimmed(line.skip(at + 1)), 32),
            },
        )
    }
}

impl Server {
    /// Reads a server from its line.
    pub fn from_str(line: &Vec<u8>) -> (out: Result<Server, ParseServerError>)
        ensures
            match out {
                Ok(server) => server_of(line@) == Ok::<ServerView, ParseServerError>(server@),
                Err(e) => server_of(line@) == Err::<ServerView, ParseServerError>(e),
            },
    {
        let at = find_first(line, 58);
        if at >= line.len() {
            return Err(ParseServerError::InvalidLineFormat);
        }
        let name = slice_of(line, 0, at);
        let rest = slice_of(line, at + 1, line.len());
        proof {
            assert(line@.subrange(0, at as int) =~= line@.take(at as int));
            assert(line@.subrange(at + 1, line@.len() as int) =~= line@.skip(at + 1));
        }
        let inner = trim(&rest);
        let connections = split(&inner, 32);
        Ok(Server { name, connections })
    }
}

/// Whether two names are equal.
pub fn same_name(a: &Vec<u8>, b: &Vec<u8>) -> (out: bool)
    ensures
        out == (a@ == b@),
{
    if a.len() != b.len() {
        return false;
    }
    let mut i: usize = 0;
    while i < a.len()
        invariant
            i <= a@.len(),
            a@.len() == b@.len(),
            forall|j: int| 0 <= j < i ==> a@[j] == b@[j],
        decreases a@.len() - i,
    {
        if a[i] != b[i] {
            return false;
        }
        i += 1;
    }
    proof {
        assert(a@ =~= b@);
    }
    true
}

/// The place of the last of the first `n` servers with the name, if there is one.
pub open spec fn found(servers: Seq<ServerView>, name: Seq<u8>, n: nat) -> Option<int>
    decreases n,
{
    if n == 0 {
        None
    } else if servers[n - 1].name == name {
        Some(n - 1)
    } else {
        found(servers, name, (n - 1) as nat)
    }
}

/// The name of the way out.
pub open spec fn terminal() -> Seq<u8> {
    seq![111u8, 117u8, 116u8]
}

/// The servers, in the order of their lines. Of servers with one name the last
/// counts.
pub struct Input {
    pub servers: Vec<Server>,
}

/// Why the paths cannot be counted.
#[derive(Debug, PartialEq, Eq, Structural)]
pub enum PathError {
    /// A path leads to a name that is neither a server nor the way out.
    Unknown,
    /// The number of paths does not fit.
    Overflow,
}

/// The views of the servers.
pub open spec fn server_views(servers: Seq<Server>) -> Seq<ServerView> {
    Seq::new(servers.len(), |i: int| servers[i]@)
}

/// The ranks fall along the connections: each server that a server sends to has a
/// lower rank.
pub open spec fn ranked(servers: Seq<ServerView>, rank: Seq<nat>) -> bool {
    &&& rank.len() == servers.len()
    &&& forall|i: int, c: int|
        0 <= i < servers.len() && 0 <= c < servers[i].connections.len() ==> match found(
            servers,
            #[trigger] servers[i].connections[c],
            servers.len(),
        ) {
            Some(j) => rank[j] < rank[i],
            None => true,
        }
}

/// No path leads from a server back to it.
pub open spec fn acyclic(servers: Seq<ServerView>) -> bool {
    exists|rank: Seq<nat>| ranked(servers, rank)
}

/// Ranks of servers without a path that leads back.
pub open spec fn ranks(servers: Seq<ServerView>) -> Seq<nat> {
    choose|rank: Seq<nat>| ranked(servers, rank)
}

/// The number of paths to the way out from server `i` over its first `n`
/// connections, or the first failure.
pub open spec fn paths_over(servers: Seq<ServerView>, rank: Seq<nat>, limit: nat, i: int, n: nat) -> Result<
    nat,
    PathError,
>
    decreases rank[i], n,
    when ranked(servers, rank) && 0 <= i < servers.len() && n <= servers[i].connections.len()
{
    if n == 0 {
        Ok(0)
    } else {
        match paths_over(servers, rank, limit, i, (n - 1) as nat) {
            Err(e) => Err(e),
            Ok(before) => {
                let child = servers[i].connections[n - 1];
                let more: Result<nat, PathError> = if child == terminal() {
                    Ok(1)
                } else {
                    match found(servers, child, servers.len()) {
                        None => Err(PathError::Unknown),
                        Some(j) => if 0 <= j < servers.len() && rank[j] < rank[i] {
                            paths_over(servers, rank, limit, j, servers[j].connections.len())
                        } else {
                            Err(PathError::Unknown)
                        },
                    }
                };
                match more {
                    Err(e) => Err(e),
                    Ok(m) => if before + m <= limit {
                        Ok(before + m)
                    } else {
                        Err(PathError::Overflow)
                    },
                }
            },
        }
    }
}

/// The number of paths to the way out from server `i`, or the first failure.
pub open spec fn paths_from(servers: Seq<ServerView>, limit: nat, i: int) -> Result<nat, PathError> {
    paths_over(servers, ranks(servers), limit, i, servers[i].connections.len())
}

impl Input {
    /// The place of the last server with the name, if there is one.
    pub fn lookup(&self, name: &Vec<u8>) -> (out: Option<usize>)
        ensures
            match out {
                Some(i) => found(server_views(self.servers@), name@, self.servers@.len()) == Some(
                    i as int,
                ) && i < self.servers@.len(),
                None => found(server_views(self.servers@), name@, self.servers@.len()) is None,
            },
    {
        let ghost all = server_views(self.servers@);
        let mut n: usize = self.servers.len();
        while n > 0
            invariant
                n <= self.servers@.len(),
                all == server_views(self.servers@),
                found(all, name@, self.servers@.len()) == found(all, name@, n as nat),
            decreases n,
        {
            if same_name(&self.servers[n - 1].name, name) {
                return Some(n - 1);
            }
            n -= 1;
        }
        None
    }

    /// The number of paths from a server to the way out. Numbers that the cache
    /// holds are taken from it, and each number found is entered.
    pub fn count_paths(&self, parent: usize, cache: &mut Vec<Option<u64>>) -> (out: Result<
        u64,
        PathError,
    >)
        requires
            acyclic(server_views(self.servers@)),
            parent < self.servers@.len(),
            old(cache)@.len() == self.servers@.len(),
            forall|i: int|
                0 <= i < old(cache)@.len() ==> match #[trigger] old(cache)@[i] {
                    Some(v) => paths_from(server_views(self.servers@), u64::MAX as nat, i) == Ok::<
                        nat,
                        PathError,
                    >(v as nat),
                    None => true,
                },
        ensures
            final(cache)@.len() == self.servers@.len(),
            forall|i: int|
                0 <= i < final(cache)@.len() ==> match #[trigger] final(cache)@[i] {
                    Some(v) => paths_from(server_views(self.servers@), u64::MAX as nat, i) == Ok::<
                        nat,
                        PathError,
                    >(v as nat),
                    None => true,
                },
            match out {
                Ok(v) => paths_from(server_views(self.servers@), u64::MAX as nat, parent as int)
                    == Ok::<nat, PathError>(v as nat),
                Err(e) => paths_from(server_views(self.servers@), u64::MAX as nat, parent as int)
                    == Err::<nat, PathError>(e),
            },
        decreases ranks(server_views(self.servers@))[parent as int],
    {
        let ghost all = server_views(self.servers@);
        let ghost rank = ranks(all);
        let ghost limit = u64::MAX as nat;
        match cache[parent] {
            Some(v) => {
                return Ok(v);
            },
            None => {},
        }
        let server = &self.servers[parent];
        let mut count: u64 = 0;
        let mut c: usize = 0;
        while c < server.connections.len()
            invariant
                c <= server.connections@.len(),
                parent < self.servers@.len(),
                *server == self.servers@[parent as int],
                all == server_views(self.servers@),
                rank == ranks(all),
                ranked(all, rank),
                limit == u64::MAX,
                cache@.len() == self.servers@.len(),
                forall|i: int|
                    0 <= i < cache@.len() ==> match #[trigger] cache@[i] {
                        Some(v) => paths_from(all, limit, i) == Ok::<nat, PathError>(v as nat),
                        None => true,
                    },
                paths_over(all, rank, limit, parent as int, c as nat) == Ok::<nat, PathError>(
                    count as nat,
                ),
            decreases server.connections@.len() - c,
        {
            let child = &server.connections[c];
            proof {
                assert(all[parent as int].connections[c as int] == child@);
                assert(all[parent as int].connections.len() == server.connections@.len());
            }
            let is_out = child.len() == 3 && child[0] == 111 && child[1] == 117 && child[2] == 116;
            proof {
                if is_out {
                    assert(child@ =~= terminal());
                } else if child@ == terminal() {
                    assert(child@[0] == terminal()[0]);
                    assert(child@[1] == terminal()[1]);
                    assert(child@[2] == terminal()[2]);
                }
            }
            let more: u64 = if is_out {
                1
            } else {
                match self.lookup(child) {
                    None => {
                        proof {
                            lemma_paths_err(
                                all,
                                rank,
                                limit,
                                parent as int,
                                (c + 1) as nat,
                                server.connections@.len(),
                            );
                        }
                        return Err(PathError::Unknown);
                    },
                    Some(j) => {
                        proof {
                            assert(rank[j as int] < rank[parent as int]);
                        }
                        match self.count_paths(j, cache) {
                            Err(e) => {
                                proof {
                                    lemma_paths_err(
                                        all,
                                        rank,
                                        limit,
                                        parent as int,
                                        (c + 1) as nat,
                                        server.connections@.len(),
                                    );
                                }
                                return Err(e);
                            },
                            Ok(v) => v,
                        }
                    },
                }
            };
            match count.checked_add(more) {
                None => {
                    proof {
                        lemma_paths_err(
                            all,
                            rank,
                            limit,
                            parent as int,
                            (c + 1) as nat,
                            server.connections@.len(),
                        );
                    }
                    return Err(PathError::Overflow);
                },
                Some(s) => {
                    count = s;
                },
            }
            c += 1;
        }
        cache[parent] = Some(count);
        Ok(count)
    }
}

/// A failure over the first connections is the failure over all connections.
pub proof fn lemma_paths_err(
    servers: Seq<ServerView>,
    rank: Seq<nat>,
    limit: nat,
    i: int,
    n: nat,
    m: nat,
)
    requires
        ranked(servers, rank),
        0 <= i < servers.len(),
        n <= m <= servers[i].connections.len(),
        paths_over(servers, rank, limit, i, n) is Err,
    ensures
        paths_over(servers, rank, limit, i, m) == paths_over(servers, rank, limit, i, n),
    decreases m - n,
{
    if n < m {
        lemma_paths_err(servers, rank, limit, i, n, (m - 1) as nat);
    }
}


/// The name of the first server that a path has to pass.
pub open spec fn first_mark() -> Seq<u8> {
    seq![102u8, 102u8, 116u8]
}

/// The name of the second server that a path has to pass.
pub open spec fn second_mark() -> Seq<u8> {
    seq![100u8, 97u8, 99u8]
}

/// The marks that a path has passed once it has reached the server with the name:
/// bit 0 for the first server to pass, bit 1 for the second.
pub open spec fn marked(mask: u8, name: Seq<u8>) -> u8 {
    if name == first_mark() {
        mask | 1
    } else if name == second_mark() {
        mask | 2
    } else {
        mask
    }
}

/// The number of paths to the way out from server `i` over its first `n` connections
/// that have passed both marked servers, where `mask` holds the marks passed before,
/// or the first failure.
pub open spec fn marked_over(
    servers: Seq<ServerView>,
    rank: Seq<nat>,
    i: int,
    mask: u8,
    n: nat,
) -> Result<nat, PathError>
    decreases rank[i], n,
    when ranked(servers, rank) && 0 <= i < servers.len() && n <= servers[i].connections.len()
{
    if n == 0 {
        Ok(0)
    } else {
        match marked_over(servers, rank, i, mask, (n - 1) as nat) {
            Err(e) => Err(e),
            Ok(before) => {
                let child = servers[i].connections[n - 1];
                let more: Result<nat, PathError> = if child == terminal() {
                    if mask == 3 {
                        Ok(1)
                    } else {
                        Ok(0)
                    }
                } else {
                    match found(servers, child, servers.len()) {
                        None => Err(PathError::Unknown),
                        Some(j) => if 0 <= j < servers.len() && rank[j] < rank[i] {
                            marked_over(
                                servers,
                                rank,
                                j,
                                marked(mask, child),
                                servers[j].connections.len(),
                            )
                        } else {
                            Err(PathError::Unknown)
                        },
                    }
                };
                match more {
                    Err(e) => Err(e),
                    Ok(m) => if before + m <= u64::MAX {
                        Ok(before + m)
                    } else {
                        Err(PathError::Overflow)
                    },
                }
            },
        }
    }
}

/// The number of paths to the way out from server `i` that have passed both marked
/// servers, where `mask` holds the marks passed before, or the first failure.
pub open spec fn marked_from(servers: Seq<ServerView>, i: int, mask: u8) -> Result<nat, PathError> {
    marked_over(servers, ranks(servers), i, mask, servers[i].connections.len())
}

/// A failure over the first connections is the failure over all connections.
pub proof fn lemma_marked_err(servers: Seq<ServerView>, rank: Seq<nat>, i: int, mask: u8, n: nat, m: nat)
    requires
        ranked(servers, rank),
        0 <= i < servers.len(),
        n <= m <= servers[i].connections.len(),
        marked_over(servers, rank, i, mask, n) is Err,
    ensures
        marked_over(servers, rank, i, mask, m) == marked_over(servers, rank, i, mask, n),
    decreases m - n,
{
    if n < m {
        lemma_marked_err(servers, rank, i, mask, n, (m - 1) as nat);
    }
}

/// The cache holds, for server `i` and the marks `mask`, nothing or the number of
/// paths.
pub open spec fn cache_holds(servers: Seq<ServerView>, cache: Seq<Option<u64>>) -> bool {
    &&& cache.len() == servers.len() * 4
    &&& forall|i: int, mask: u8|
        0 <= i < servers.len() && mask < 4 ==> match #[trigger] cache[i * 4 + mask] {
            Some(v) => marked_from(servers, i, mask) == Ok::<nat, PathError>(v as nat),
            None => true,
        }
}

impl Input {
    /// The number of paths from a server to the way out that pass both marked
    /// servers, where `mask` holds the marks passed before. Numbers that the cache
    /// holds are taken from it, and each number found is entered.
    pub fn count_marked_paths(&self, parent: usize, mask: u8, cache: &mut Vec<Option<u64>>) -> (out:
        Result<u64, PathError>)
        requires
            acyclic(server_views(self.servers@)),
            parent < self.servers@.len(),
            mask < 4,
            cache_holds(server_views(self.servers@), old(cache)@),
        ensures
            cache_holds(server_views(self.servers@), final(cache)@),
            match out {
                Ok(v) => marked_from(server_views(self.servers@), parent as int, mask) == Ok::<
                    nat,
                    PathError,
                >(v as nat),
                Err(e) => marked_from(server_views(self.servers@), parent as int, mask) == Err::<
                    nat,
                    PathError,
                >(e),
            },
        decreases ranks(server_views(self.servers@))[parent as int],
    {
        let ghost all = server_views(self.servers@);
        let ghost rank = ranks(all);
        proof {
            assert(parent * 4 + mask < all.len() * 4) by (nonlinear_arith)
                requires
                    parent < all.len(),
                    mask < 4,
            ;
        }
        let size = cache.len();
        let key = parent * 4 + mask as usize;
        match cache[key] {
            Some(v) => {
                return Ok(v);
            },
            None => {},
        }
        let server = &self.servers[parent];
        let mut count: u64 = 0;
        let mut c: usize = 0;
        while c < server.connections.len()
            invariant
                c <= server.connections@.len(),
                parent < self.servers@.len(),
                mask < 4,
                key == parent * 4 + mask,
                *server == self.servers@[parent as int],
                all == server_views(self.servers@),
                rank == ranks(all),
                ranked(all, rank),
                cache_holds(all, cache@),
                marked_over(all, rank, parent as int, mask, c as nat) == Ok::<nat, PathError>(
                    count as nat,
                ),
            decreases server.connections@.len() - c,
        {
            let child = &server.connections[c];
            proof {
                assert(all[parent as int].connections[c as int] == child@);
                assert(all[parent as int].connections.len() == server.connections@.len());
            }
            let is_out = child.len() == 3 && child[0] == 111 && child[1] == 117 && child[2] == 116;
            let is_first = child.len() == 3 && child[0] == 102 && child[1] == 102 && child[2] == 116;
            let is_second = child.len() == 3 && child[0] == 100 && child[1] == 97 && child[2] == 99;
            proof {
                if is_out {
                    assert(child@ =~= terminal());
                } else if child@ == terminal() {
                    assert(child@[0] == terminal()[0]);
                    assert(child@[1] == terminal()[1]);
                    assert(child@[2] == terminal()[2]);
                }
                if is_first {
                    assert(child@ =~= first_mark());
                } else if child@ == first_mark() {
                    assert(child@[0] == first_mark()[0]);
                    assert(child@[1] == first_mark()[1]);
                    assert(child@[2] == first_mark()[2]);
                }
                if is_second {
                    assert(child@ =~= second_mark());
                } else if child@ == second_mark() {
                    assert(child@[0] == second_mark()[0]);
                    assert(child@[1] == second_mark()[1]);
                    assert(child@[2] == second_mark()[2]);
                }
            }
            let more: u64 = if is_out {
                if mask == 3 {
                    1
                } else {
                    0
                }
            } else {
                let next: u8 = if is_first {
                    mask | 1
                } else if is_second {
                    mask | 2
                } else {
                    mask
                };
                proof {
                    assert(mask | 1 < 4 && mask | 2 < 4) by (bit_vector)
                        requires
                            mask < 4,
                    ;
                }
                match self.lookup(child) {
                    None => {
                        proof {
                            lemma_marked_err(
                                all,
                                rank,
                                parent as int,
                                mask,
                                (c + 1) as nat,
                                server.connections@.len(),
                            );
                        }
                        return Err(PathError::Unknown);
                    },
                    Some(j) => {
                        proof {
                            assert(rank[j as int] < rank[parent as int]);
                        }
                        match self.count_marked_paths(j, next, cache) {
                            Err(e) => {
                                proof {
                                    lemma_marked_err(
                                        all,
                                        rank,
                                        parent as int,
                                        mask,
                                        (c + 1) as nat,
                                        server.connections@.len(),
                                    );
                                }
                                return Err(e);
                            },
                            Ok(v) => v,
                        }
                    },
                }
            };
            match count.checked_add(more) {
                None => {
                    proof {
                        lemma_marked_err(
                            all,
                            rank,
                            parent as int,
                            mask,
                            (c + 1) as nat,
                            server.connections@.len(),
                        );
                    }
                    return Err(PathError::Overflow);
                },
                Some(s) => {
                    count = s;
                },
            }
            c += 1;
        }
        let ghost before = cache@;
        cache[key] = Some(count);
        proof {
            assert forall|i: int, m: u8| 0 <= i < all.len() && m < 4 implies match #[trigger] cache@[i
                * 4 + m] {
                Some(v) => marked_from(all, i, m) == Ok::<nat, PathError>(v as nat),
                None => true,
            } by {
                if i * 4 + m != key {
                    assert(cache@[i * 4 + m] == before[i * 4 + m]);
                } else {
                    assert(i == parent && m == mask);
                }
            }
        }
        Ok(count)
    }
}


/// The ranks as natural numbers.
pub open spec fn rank_values(ranks: Seq<usize>) -> Seq<nat> {
    Seq::new(ranks.len(), |i: int| ranks[i] as nat)
}

impl Input {
    /// Whether the ranks fall along the connections. Where they do, no path leads
    /// from a server back to it.
    pub fn has_ranks(&self, ranks: &Vec<usize>) -> (out: bool)
        ensures
            out == ranked(server_views(self.servers@), rank_values(ranks@)),
            out ==> acyclic(server_views(self.servers@)),
    {
        let ghost all = server_views(self.servers@);
        let ghost rank = rank_values(ranks@);
        if ranks.len() != self.servers.len() {
            return false;
        }
        let mut i: usize = 0;
        while i < self.servers.len()
            invariant
                i <= self.servers@.len(),
                all == server_views(self.servers@),
                rank == rank_values(ranks@),
                ranks@.len() == self.servers@.len(),
                forall|q: int, c: int|
                    0 <= q < i && 0 <= c < all[q].connections.len() ==> match found(
                        all,
                        #[trigger] all[q].connections[c],
                        all.len(),
                    ) {
                        Some(j) => rank[j] < rank[q],
                        None => true,
                    },
            decreases self.servers@.len() - i,
        {
            let server = &self.servers[i];
            let mut c: usize = 0;
            while c < server.connections.len()
                invariant
                    c <= server.connections@.len(),
                    i < self.servers@.len(),
                    *server == self.servers@[i as int],
                    all == server_views(self.servers@),
                    rank == rank_values(ranks@),
                    ranks@.len() == self.servers@.len(),
                    forall|k: int|
                        0 <= k < c ==> match found(all, #[trigger] all[i as int].connections[k], all.len()) {
                            Some(j) => rank[j] < rank[i as int],
                            None => true,
                        },
                decreases server.connections@.len() - c,
            {
                proof {
                    assert(all[i as int].connections[c as int] == server.connections@[c as int]@);
                    assert(all[i as int].connections.len() == server.connections@.len());
                }
                match self.lookup(&server.connections[c]) {
                    Some(j) => {
                        if ranks[j] >= ranks[i] {
                            return false;
                        }
                    },
                    None => {},
                }
                c += 1;
            }
            proof {
                assert(all[i as int].connections.len() == server.connections@.len());
            }
            i += 1;
        }
        proof {
            assert(ranked(all, rank));
        }
        true
    }
}

} // verus!
