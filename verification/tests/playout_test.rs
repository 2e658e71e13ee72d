use go_game_board::board::Board;
use go_game_board::fast_random::FastRandom;
use go_game_board::hash::Hash3x3;
use go_game_board::types::{vertex_nbr, Color, Dir, Nat, Player, Vertex};

const GAMMAS_ACCURACY: f64 = 1.0e-10;

fn uniform_gammas() -> Vec<[f64; 2]> {
    let mut table = vec![[0.0f64; 2]; Hash3x3::COUNT];
    for raw in 0..Hash3x3::COUNT {
        let hash = Hash3x3::of_raw(raw);
        for pl_raw in 0..2 {
            let pl = Player::of_raw(pl_raw);
            table[raw][pl_raw] = if hash.is_legal(pl) && !hash.is_eyelike(pl) {
                1.0
            } else {
                0.0
            };
        }
    }
    table
}

fn gamma(gammas: &[[f64; 2]], hash: Hash3x3, pl: Player) -> f64 {
    gammas[hash.raw()][pl.raw()]
}

fn next_double(random: &mut FastRandom, scale: f64) -> f64 {
    let inv_max_uint: f64 = 1.0 / ((1u64 << 31) as f64);
    let s = random.get_next_uint();
    (s as f64) * (inv_max_uint * scale)
}

struct Sampler {
    act_gamma: Vec<[f64; 2]>,
    act_gamma_sum: [f64; 2],
    proximity_bonus: [f64; 2],
    is_in_local: Vec<bool>,
    local_vertices: Vec<Vertex>,
    local_gamma: Vec<f64>,
    total_non_local_gamma: f64,
    total_local_gamma: f64,
    ko_v: Vertex,
}

impl Sampler {
    fn new() -> Sampler {
        Sampler {
            act_gamma: vec![[0.0; 2]; Vertex::COUNT],
            act_gamma_sum: [0.0; 2],
            proximity_bonus: [10.0, 10.0],
            is_in_local: vec![false; Vertex::COUNT],
            local_vertices: Vec::with_capacity(100),
            local_gamma: vec![0.0; Vertex::COUNT],
            total_non_local_gamma: 0.0,
            total_local_gamma: 0.0,
            ko_v: Vertex::none(),
        }
    }

    fn new_playout(&mut self, board: &Board, gammas: &[[f64; 2]]) {
        for pl in 0..2 {
            self.act_gamma_sum[pl] = 0.0;
            for v in 0..Vertex::COUNT {
                self.act_gamma[v][pl] = 0.0;
            }
            for ii in 0..board.empty_vertex_count() {
                let v = board.empty_vertex(ii);
                self.act_gamma[v.index()][pl] = gamma(gammas, board.hash3x3_at(v), Player::of_raw(pl));
                self.act_gamma_sum[pl] += self.act_gamma[v.index()][pl];
            }
        }
        let act_pl = board.act_player().raw();
        self.ko_v = board.ko_vertex();
        if self.ko_v != Vertex::none() {
            self.act_gamma_sum[act_pl] -= self.act_gamma[self.ko_v.index()][act_pl];
            self.act_gamma[self.ko_v.index()][act_pl] = 0.0;
        }
    }

    fn move_played(&mut self, board: &Board, gammas: &[[f64; 2]]) {
        let last_pl = board.last_player();
        let last_v = board.last_vertex();

        let hash = board.hash3x3_at(self.ko_v);
        let new_gamma = gamma(gammas, hash, last_pl);
        self.act_gamma[self.ko_v.index()][last_pl.raw()] = new_gamma;
        self.act_gamma_sum[last_pl.raw()] += new_gamma;

        for pl in 0..2 {
            self.act_gamma_sum[pl] -= self.act_gamma[last_v.index()][pl];
            self.act_gamma[last_v.index()][pl] = 0.0;

            let n = board.hash3x3_changed_count();
            for ii in 0..n {
                let v = board.hash3x3_changed(ii);
                self.act_gamma_sum[pl] -= self.act_gamma[v.index()][pl];
                self.act_gamma[v.index()][pl] = gamma(gammas, board.hash3x3_at(v), Player::of_raw(pl));
                self.act_gamma_sum[pl] += self.act_gamma[v.index()][pl];
            }
        }

        let act_pl = board.act_player().raw();
        self.ko_v = board.ko_vertex();
        self.act_gamma_sum[act_pl] -= self.act_gamma[self.ko_v.index()][act_pl];
        self.act_gamma[self.ko_v.index()][act_pl] = 0.0;
    }

    fn sample_move(&mut self, board: &Board, random: &mut FastRandom) -> Vertex {
        let pl = board.act_player().raw();
        if self.act_gamma_sum[pl] < GAMMAS_ACCURACY {
            return Vertex::pass();
        }
        self.calculate_local_gammas(board);
        let total_gamma = self.total_non_local_gamma + self.total_local_gamma;
        let sample = next_double(random, total_gamma);
        if sample < self.total_local_gamma {
            self.sample_local_move(sample)
        } else {
            let sample = sample - self.total_local_gamma;
            self.sample_non_local_move(board, sample)
        }
    }

    fn calculate_local_gammas(&mut self, board: &Board) {
        let pl = board.act_player().raw();
        for m in self.is_in_local.iter_mut() {
            *m = false;
        }
        self.local_vertices.clear();
        self.total_non_local_gamma = self.act_gamma_sum[pl];
        self.total_local_gamma = 0.0;

        let last_v = board.last_vertex();
        if board.color_at(last_v) != Color::OffBoard {
            for d in 0..8 {
                let dir = Dir::of_raw(d);
                let nbr = vertex_nbr(last_v, dir);
                if !self.is_in_local[nbr.index()] {
                    self.is_in_local[nbr.index()] = true;
                    self.local_vertices.push(nbr);
                    self.local_gamma[nbr.index()] = self.act_gamma[nbr.index()][pl];
                    self.total_non_local_gamma -= self.act_gamma[nbr.index()][pl];
                }
                self.local_gamma[nbr.index()] *= self.proximity_bonus[dir.proximity()];
            }
        }
        for ii in 0..self.local_vertices.len() {
            let local_v = self.local_vertices[ii];
            self.total_local_gamma += self.local_gamma[local_v.index()];
        }
    }

    fn sample_local_move(&self, sample: f64) -> Vertex {
        let mut local_gamma_sum = 0.0;
        for ii in 0..self.local_vertices.len() {
            let nbr = self.local_vertices[ii];
            local_gamma_sum += self.local_gamma[nbr.index()];
            if local_gamma_sum >= sample {
                return nbr;
            }
        }
        panic!("the local window holds less weight than its total");
    }

    fn sample_non_local_move(&self, board: &Board, sample: f64) -> Vertex {
        let pl = board.act_player().raw();
        let mut sum = 0.0;
        for ii in 0..board.empty_vertex_count() {
            let v = board.empty_vertex(ii);
            if self.is_in_local[v.index()] {
                continue;
            }
            sum += self.act_gamma[v.index()][pl];
            if sum > sample {
                return v;
            }
        }
        Vertex::pass()
    }
}

fn run_playouts(playout_cnt: usize) -> (usize, [usize; 2]) {
    let gammas = uniform_gammas();
    let empty_board = Board::new();
    let mut board = empty_board.clone();
    let mut random = FastRandom::new(123);
    let mut sampler = Sampler::new();
    let mut move_count = 0;
    let mut wins = [0usize; 2];
    for _ in 0..playout_cnt {
        board.load(&empty_board);
        sampler.new_playout(&board, &gammas);
        while !board.both_player_pass() {
            let pl = board.act_player();
            let v = sampler.sample_move(&board, &mut random);
            assert!(board.is_legal(pl, v));
            board.play_legal(pl, v);
            sampler.move_played(&board, &gammas);
        }
        wins[board.playout_winner().raw()] += 1;
        move_count += board.move_count();
    }
    (move_count, wins)
}

#[test]
fn test_benchmark_10k() {
    let (moves, wins) = run_playouts(10000);
    assert_eq!(moves, 1150865);
    assert_eq!(wins[0] + wins[1], 10000);
}

#[test]
fn playouts_are_deterministic() {
    let first = run_playouts(200);
    let second = run_playouts(200);
    assert_eq!(first, second);
}

#[test]
fn test_benchmark_100k() {
    let (moves, wins) = run_playouts(100000);
    assert_eq!(moves, 11508282);
    assert_eq!(wins[0] + wins[1], 100000);
}

#[test]
fn weight_sums_follow_the_weights() {
    let gammas = uniform_gammas();
    let empty_board = Board::new();
    let mut board = empty_board.clone();
    let mut random = FastRandom::new(123);
    let mut sampler = Sampler::new();
    for _ in 0..50 {
        board.load(&empty_board);
        sampler.new_playout(&board, &gammas);
        while !board.both_player_pass() {
            let pl = board.act_player();
            let v = sampler.sample_move(&board, &mut random);
            board.play_legal(pl, v);
            sampler.move_played(&board, &gammas);
            for pl in 0..2 {
                let mut sum = 0.0;
                for i in 0..Vertex::COUNT {
                    sum += sampler.act_gamma[i][pl];
                }
                assert!((sampler.act_gamma_sum[pl] - sum).abs() < 1.0e-6);
            }
        }
    }
}
