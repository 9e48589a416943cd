use coup::bot::{BotInterface, Context, OtherBot};
use coup::bots::{HonestBot, RandomBot, StaticBot};
use coup::{Action, Card, ChallengeRound, Coup, GameError, History};

const KINDS: [Card; 5] = [Card::Ambassador, Card::Assassin, Card::Captain, Card::Contessa, Card::Duke];

fn count_everywhere(coup: &Coup, card: Card) -> usize {
	let in_hands: usize =
		coup.bots.iter().map(|b| b.cards.iter().filter(|&&c| c == card).count()).sum();
	coup.deck.iter().filter(|&&c| c == card).count()
		+ coup.discard_pile.iter().filter(|&&c| c == card).count()
		+ in_hands
}

fn mixed_table() -> Coup {
	Coup::new(vec![
		Box::new(StaticBot),
		Box::new(HonestBot),
		Box::new(RandomBot),
		Box::new(RandomBot),
		Box::new(HonestBot),
		Box::new(RandomBot),
		Box::new(StaticBot),
	])
}

#[test]
fn cards_are_conserved_through_whole_games() {
	let mut coup = mixed_table();
	for _ in 0..20 {
		coup.play().unwrap();
		for kind in KINDS {
			assert_eq!(count_everywhere(&coup, kind), 3);
		}
	}
}

#[test]
fn cards_are_conserved_turn_by_turn() {
	let mut coup = mixed_table();
	coup.setup();
	for _ in 0..200 {
		if coup.living_count() <= 1 {
			break;
		}
		coup.game_loop();
		for kind in KINDS {
			assert_eq!(count_everywhere(&coup, kind), 3);
		}
	}
}

#[test]
fn score_is_zero_sum_after_every_game() {
	let mut coup = mixed_table();
	for _ in 0..20 {
		let before: Vec<i64> = coup.score.iter().map(|(_, p)| *p).collect();
		coup.play().unwrap();
		let change: i64 = coup.score.iter().zip(before.iter()).map(|((_, p), b)| p - b).sum();
		assert_eq!(change, 0);
	}
}

#[test]
fn winners_and_losers_share_one_point() {
	let mut coup = Coup::new(vec![
		Box::new(StaticBot),
		Box::new(StaticBot),
		Box::new(StaticBot),
		Box::new(StaticBot),
		Box::new(StaticBot),
		Box::new(StaticBot),
	]);
	coup.setup();
	coup.set_score(vec![
		String::from("StaticBot"),
		String::from("StaticBot 2"),
		String::from("StaticBot 3"),
		String::from("StaticBot 4"),
	]);
	let points: Vec<i64> = coup.score.iter().map(|(_, p)| *p).collect();
	assert_eq!(points, vec![15, 15, 15, 15, -30, -30]);
}

#[test]
fn a_table_where_everybody_survives_scores_nothing() {
	let mut coup = Coup::new(vec![Box::new(StaticBot), Box::new(StaticBot)]);
	coup.setup();
	coup.set_score(vec![String::from("StaticBot"), String::from("StaticBot 2")]);
	assert_eq!(coup.score[0].1, 0);
	assert_eq!(coup.score[1].1, 0);
}

#[test]
fn a_single_bot_cannot_play() {
	let mut coup = Coup::new(vec![Box::new(StaticBot)]);
	assert_eq!(coup.play(), Err(GameError::NotEnoughBots));
	let mut empty = Coup::new(vec![]);
	assert_eq!(empty.play(), Err(GameError::NotEnoughBots));
}

#[test]
fn six_seated_bots_leave_three_cards_in_the_deck() {
	let mut coup = Coup::new(vec![
		Box::new(StaticBot),
		Box::new(HonestBot),
		Box::new(RandomBot),
		Box::new(StaticBot),
		Box::new(HonestBot),
		Box::new(RandomBot),
	]);
	coup.setup();
	assert_eq!(coup.playing_bots.len(), 6);
	assert_eq!(coup.deck.len(), 3);
	for &b in coup.playing_bots.iter() {
		assert_eq!(coup.bots[b].cards.len(), 2);
	}
}

#[test]
fn unseated_bots_hold_no_cards() {
	let mut coup = Coup::new((0..8).map(|_| Box::new(StaticBot) as Box<dyn BotInterface>).collect());
	coup.setup();
	let seated = coup.playing_bots.clone();
	for i in 0..8 {
		if !seated.contains(&i) {
			assert!(coup.bots[i].cards.is_empty());
		}
	}
}

#[test]
fn duplicate_names_get_numbers() {
	let coup = Coup::new(vec![Box::new(StaticBot), Box::new(HonestBot), Box::new(StaticBot), Box::new(StaticBot)]);
	let names: Vec<String> = coup.bots.iter().map(|b| b.name.clone()).collect();
	assert_eq!(names, vec!["StaticBot", "HonestBot", "StaticBot 2", "StaticBot 3"]);
}

#[test]
fn decks_come_shuffled() {
	let sorted = vec![
		Card::Ambassador,
		Card::Ambassador,
		Card::Ambassador,
		Card::Assassin,
		Card::Assassin,
		Card::Assassin,
		Card::Captain,
		Card::Captain,
		Card::Captain,
		Card::Contessa,
		Card::Contessa,
		Card::Contessa,
		Card::Duke,
		Card::Duke,
		Card::Duke,
	];
	let shuffled = (0..20).any(|_| Coup::new_deck() != sorted);
	assert!(shuffled);
}

struct AssassinBot;
impl BotInterface for AssassinBot {
	fn get_name(&self) -> String {
		String::from("A")
	}
	fn on_turn(&self, _context: &Context) -> Action {
		Action::Assassination(String::from("B"))
	}
}

struct ChallengerBot;
impl BotInterface for ChallengerBot {
	fn get_name(&self) -> String {
		String::from("B")
	}
	fn on_challenge_action_round(&self, _action: &Action, _by: String, _context: &Context) -> bool {
		true
	}
}

#[test]
fn bluffed_assassination_is_caught() {
	let mut coup = Coup::new(vec![Box::new(AssassinBot), Box::new(ChallengerBot)]);
	coup.setup();
	coup.playing_bots = vec![0, 1];
	coup.turn = 0;
	coup.bots[0].cards = vec![Card::Duke, Card::Captain];
	coup.bots[0].coins = 4;
	coup.bots[1].cards = vec![Card::Ambassador, Card::Ambassador];

	coup.game_loop();

	assert_eq!(coup.bots[0].cards.len(), 1);
	assert_eq!(coup.bots[1].cards, vec![Card::Ambassador, Card::Ambassador]);
	assert_eq!(coup.bots[0].coins, 4);
	assert_eq!(
		coup.history,
		vec![
			History::ActionAssassination { by: String::from("A"), target: String::from("B") },
			History::ChallengeAssassin { by: String::from("B"), target: String::from("A") },
		]
	);
	assert_eq!(coup.turn, 1);
	assert_eq!(coup.moves, 1);
}

struct TaxBot;
impl BotInterface for TaxBot {
	fn get_name(&self) -> String {
		String::from("T")
	}
	fn on_turn(&self, _context: &Context) -> Action {
		Action::Tax
	}
}

#[test]
fn a_failed_challenge_swaps_the_shown_card() {
	let mut replaced = false;
	for _ in 0..50 {
		let mut coup = Coup::new(vec![Box::new(TaxBot), Box::new(ChallengerBot)]);
		coup.setup();
		coup.playing_bots = vec![0, 1];
		coup.turn = 0;
		let challenger_cards = coup.bots[1].cards.len();
		let duke_in_deck = coup.deck.iter().position(|&c| c == Card::Duke);
		// Give the actor a Duke from the deck, keeping every card in play.
		match duke_in_deck {
			Some(i) => {
				let old = coup.bots[0].cards[0];
				coup.bots[0].cards[0] = Card::Duke;
				coup.deck[i] = old;
			},
			None => continue,
		}
		coup.game_loop();
		assert_eq!(coup.bots[0].cards.len(), 2);
		assert_eq!(coup.bots[1].cards.len(), challenger_cards - 1);
		assert_eq!(coup.bots[0].coins, 5);
		if !coup.bots[0].cards.contains(&Card::Duke) {
			replaced = true;
		}
		for kind in KINDS {
			assert_eq!(count_everywhere(&coup, kind), 3);
		}
	}
	assert!(replaced);
}

#[test]
fn a_coup_is_forced_at_ten_coins() {
	let mut coup = Coup::new(vec![Box::new(TaxBot), Box::new(StaticBot)]);
	coup.setup();
	coup.playing_bots = vec![0, 1];
	coup.turn = 0;
	coup.bots[0].coins = 10;
	coup.game_loop();
	assert_eq!(coup.bots[0].coins, 3);
	assert_eq!(coup.bots[1].cards.len(), 1);
	assert_eq!(
		coup.history,
		vec![History::ActionCoup { by: String::from("T"), target: String::from("StaticBot") }]
	);
}

#[test]
fn an_eliminated_bot_cannot_be_targeted() {
	let mut coup = Coup::new(vec![Box::new(StaticBot), Box::new(StaticBot), Box::new(StaticBot)]);
	coup.setup();
	coup.playing_bots = vec![0, 1, 2];
	coup.bots[0].coins = 7;
	coup.bots[2].cards = vec![];
	assert!(coup.target_not_found(String::from("StaticBot 3")));
	let discarded = coup.discard_pile.len();
	coup.action_couping(String::from("StaticBot 3"));
	assert_eq!(coup.bots[0].coins, 7);
	assert_eq!(coup.bots[0].cards.len(), 1);
	assert_eq!(coup.discard_pile.len(), discarded + 1);
}

#[test]
fn the_turn_skips_eliminated_bots() {
	let mut coup = Coup::new(vec![Box::new(StaticBot), Box::new(StaticBot), Box::new(StaticBot)]);
	coup.setup();
	coup.playing_bots = vec![0, 1, 2];
	coup.turn = 0;
	coup.bots[1].cards = vec![];
	assert_eq!(coup.next_turn(), 2);
	coup.turn = 2;
	assert_eq!(coup.next_turn(), 0);
}

#[test]
fn challengers_are_polled_from_the_seat_after_the_claimant() {
	let mut coup = Coup::new(vec![
		Box::new(StaticBot),
		Box::new(ChallengerBot),
		Box::new(StaticBot),
		Box::new(ChallengerBot),
	]);
	coup.setup();
	coup.playing_bots = vec![2, 3, 0, 1];
	let first = coup.challenge_round(ChallengeRound::Action, &Action::Tax, String::from("StaticBot"));
	assert_eq!(first, Some(String::from("B")));
	let second = coup.challenge_round(ChallengeRound::Action, &Action::Tax, String::from("B"));
	assert_eq!(second, Some(String::from("B 2")));
}

fn context(cards: Vec<Card>, coins: u8, others: Vec<(&str, u8)>, discard: Vec<Card>) -> Context {
	Context {
		name: String::from("me"),
		cards,
		coins,
		playing_bots: others
			.into_iter()
			.map(|(n, c)| OtherBot { name: String::from(n), coins: 2, cards: c })
			.collect(),
		discard_pile: discard,
		history: vec![],
		score: vec![],
	}
}

#[test]
fn honest_bot_acts_on_its_cards() {
	let bot = HonestBot;
	let others = vec![("x", 2), ("y", 1), ("z", 1)];
	assert_eq!(
		bot.on_turn(&context(vec![Card::Assassin, Card::Duke], 3, others.clone(), vec![])),
		Action::Assassination(String::from("y"))
	);
	assert_eq!(
		bot.on_turn(&context(vec![Card::Assassin, Card::Captain], 2, others.clone(), vec![])),
		Action::Stealing(String::from("y"))
	);
	assert_eq!(bot.on_turn(&context(vec![Card::Duke], 2, others.clone(), vec![])), Action::Tax);
	assert_eq!(bot.on_turn(&context(vec![Card::Contessa], 2, others.clone(), vec![])), Action::Income);
	assert_eq!(bot.on_auto_coup(&context(vec![Card::Contessa], 10, others, vec![])), String::from("y"));
}

#[test]
fn honest_bot_challenges_only_certain_bluffs() {
	let bot = HonestBot;
	let sees_all = context(vec![Card::Duke, Card::Duke], 2, vec![("x", 2)], vec![Card::Duke]);
	let sees_two = context(vec![Card::Duke, Card::Duke], 2, vec![("x", 2)], vec![]);
	assert!(bot.on_challenge_action_round(&Action::Tax, String::from("x"), &sees_all));
	assert!(!bot.on_challenge_action_round(&Action::Tax, String::from("x"), &sees_two));
	assert!(!bot.on_challenge_action_round(&Action::Income, String::from("x"), &sees_all));
	let contessa = context(vec![Card::Contessa], 2, vec![("x", 2)], vec![]);
	assert!(bot.on_counter(&Action::Assassination(String::from("me")), String::from("x"), &contessa));
	assert!(!bot.on_counter(&Action::Stealing(String::from("me")), String::from("x"), &contessa));
}

#[test]
fn default_bot_loses_its_last_card_and_keeps_the_drawn_cards_on_swap() {
	let bot = StaticBot;
	let ctx = context(vec![Card::Duke, Card::Captain], 2, vec![("x", 2)], vec![]);
	assert_eq!(bot.on_card_loss(&ctx), Card::Captain);
	assert_eq!(bot.on_swapping_cards([Card::Contessa, Card::Assassin], &ctx), [Card::Duke, Card::Captain]);
	let one = context(vec![Card::Duke], 2, vec![("x", 2)], vec![]);
	assert_eq!(bot.on_swapping_cards([Card::Contessa, Card::Assassin], &one), [Card::Duke, Card::Assassin]);
	assert_eq!(bot.on_auto_coup(&ctx), String::from("x"));
	assert_eq!(bot.on_turn(&ctx), Action::Income);
}

#[test]
fn random_bot_names_only_cards_it_can_see() {
	let bot = RandomBot;
	let ctx = context(vec![Card::Duke, Card::Captain], 2, vec![("x", 2)], vec![]);
	for _ in 0..20 {
		let lost = bot.on_card_loss(&ctx);
		assert!(lost == Card::Duke || lost == Card::Captain);
		let back = bot.on_swapping_cards([Card::Contessa, Card::Assassin], &ctx);
		for c in back {
			assert!([Card::Duke, Card::Captain, Card::Contessa, Card::Assassin].contains(&c));
		}
		assert_eq!(bot.on_auto_coup(&ctx), String::from("x"));
	}
}

#[test]
fn declared_actions_are_logged_or_penalized() {
	let mut coup = Coup::new(vec![Box::new(StaticBot), Box::new(StaticBot)]);
	coup.setup();
	coup.playing_bots = vec![0, 1];
	coup.turn = 0;
	coup.bots[0].cards = vec![Card::Duke, Card::Contessa];

	coup.play_action(Action::Income);
	assert_eq!(coup.bots[0].coins, 3);
	assert_eq!(coup.history, vec![History::ActionIncome { by: String::from("StaticBot") }]);

	coup.play_action(Action::Stealing(String::from("nobody")));
	assert_eq!(coup.bots[0].cards, vec![Card::Duke]);
	assert_eq!(coup.discard_pile, vec![Card::Contessa]);
	assert_eq!(coup.history.len(), 1);
}

#[test]
fn a_successful_challenge_ends_the_turn() {
	let mut coup = Coup::new(vec![Box::new(StaticBot), Box::new(CounterOnlyBot)]);
	coup.setup();
	coup.playing_bots = vec![0, 1];
	coup.turn = 0;
	coup.bots[0].cards = vec![Card::Duke, Card::Contessa];
	coup.bots[0].coins = 5;
	let target_cards = coup.bots[1].cards.clone();

	let goes_on = coup.settle_challenge(
		Action::Stealing(String::from("C")),
		String::from("StaticBot"),
		Some(String::from("C")),
	);

	assert!(!goes_on);
	assert_eq!(coup.bots[0].cards, vec![Card::Duke]);
	assert_eq!(coup.bots[0].coins, 5);
	assert_eq!(coup.bots[1].cards, target_cards);
	assert_eq!(
		coup.history,
		vec![History::ChallengeCaptain { by: String::from("C"), target: String::from("StaticBot") }]
	);
}

struct CounterOnlyBot;
impl BotInterface for CounterOnlyBot {
	fn get_name(&self) -> String {
		String::from("C")
	}
	fn on_counter(&self, _action: &Action, _by: String, _context: &Context) -> bool {
		true
	}
}

#[test]
fn a_held_claim_survives_its_challenge() {
	let mut coup = Coup::new(vec![Box::new(StaticBot), Box::new(CounterOnlyBot)]);
	coup.setup();
	coup.playing_bots = vec![0, 1];
	coup.turn = 0;
	coup.bots[0].cards = vec![Card::Captain, Card::Contessa];
	coup.bots[1].cards = vec![Card::Duke, Card::Duke];

	let goes_on = coup.settle_challenge(
		Action::Stealing(String::from("C")),
		String::from("StaticBot"),
		Some(String::from("C")),
	);

	assert!(goes_on);
	assert_eq!(coup.bots[0].cards.len(), 2);
	assert_eq!(coup.bots[0].cards[0], Card::Contessa);
	assert_eq!(coup.bots[1].cards, vec![Card::Duke]);
}

#[test]
fn a_challenged_block_decides_the_action() {
	// The blocker lacks a Duke: it loses a card and the aid goes through.
	let mut coup = Coup::new(vec![Box::new(StaticBot), Box::new(CounterOnlyBot), Box::new(StaticBot)]);
	coup.setup();
	coup.playing_bots = vec![0, 1, 2];
	coup.turn = 0;
	coup.bots[1].cards = vec![Card::Captain, Card::Contessa];
	coup.settle_block(Action::ForeignAid, String::from("C"), Some(String::from("StaticBot 2")));
	assert_eq!(coup.bots[1].cards, vec![Card::Captain]);
	assert_eq!(coup.bots[0].coins, 4);

	// The blocker holds a Duke: the challenger loses a card, the aid stays blocked.
	coup.setup();
	coup.playing_bots = vec![0, 1, 2];
	coup.turn = 0;
	coup.bots[1].cards = vec![Card::Duke, Card::Contessa];
	coup.bots[2].cards = vec![Card::Assassin, Card::Captain];
	coup.settle_block(Action::ForeignAid, String::from("C"), Some(String::from("StaticBot 2")));
	assert_eq!(coup.bots[1].cards, vec![Card::Duke, Card::Contessa]);
	assert_eq!(coup.bots[2].cards, vec![Card::Assassin]);
	assert_eq!(coup.bots[0].coins, 2);
}

#[test]
fn an_unblocked_theft_is_carried_out() {
	let mut coup = Coup::new(vec![Box::new(StaticBot), Box::new(CounterOnlyBot)]);
	coup.setup();
	coup.playing_bots = vec![0, 1];
	coup.turn = 0;
	coup.block_stage(Action::Stealing(String::from("C")), String::from("C"), String::from("StaticBot"), false);
	assert_eq!(coup.bots[0].coins, 4);
	assert_eq!(coup.bots[1].coins, 0);

	coup.setup();
	coup.playing_bots = vec![0, 1];
	coup.turn = 0;
	coup.block_stage(Action::Stealing(String::from("C")), String::from("C"), String::from("StaticBot"), true);
	assert_eq!(coup.bots[0].coins, 2);
	assert_eq!(
		coup.history,
		vec![History::CounterStealing { by: String::from("C"), target: String::from("StaticBot") }]
	);
}

#[test]
fn living_count_counts_seats_still_in_the_game() {
	let mut coup = Coup::new(vec![Box::new(StaticBot), Box::new(StaticBot), Box::new(StaticBot)]);
	coup.setup();
	assert_eq!(coup.living_count(), 3);
	coup.bots[1].cards = vec![];
	assert_eq!(coup.living_count(), 2);
	coup.bots[2].cards = vec![];
	assert_eq!(coup.living_count(), 1);
}

#[test]
fn bots_keep_their_own_names_when_free() {
	let coup = Coup::new(vec![Box::new(HonestBot), Box::new(RandomBot), Box::new(HonestBot)]);
	let names: Vec<String> = coup.bots.iter().map(|b| b.name.clone()).collect();
	assert_eq!(names, vec!["HonestBot", "RandomBot", "HonestBot 2"]);
	assert_eq!(StaticBot.get_name(), String::from("StaticBot"));
}
