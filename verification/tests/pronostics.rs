use chess_pronostics::{get_pronostics, ChessPlayer, Pronostics};

#[test]
fn returns_player_with_highest_elo() {
    //ARRANGE
    let player_list: Vec<ChessPlayer> = vec![
        ChessPlayer {
            elo: 3100,
            age: 33,
            name: String::from("Sherlock"),
        },
        ChessPlayer {
            elo: 3000,
            age: 32,
            name: String::from("Magnus"),
        },
        ChessPlayer {
            elo: 2999,
            age: 24,
            name: String::from("Francis"),
        },
        ChessPlayer {
            elo: 2999,
            age: 24,
            name: String::from("Moriarty"),
        },
        ChessPlayer {
            elo: 700,
            age: 30,
            name: String::from("Félix"),
        },
        ChessPlayer {
            elo: 2700,
            age: 31,
            name: String::from("Erik Lehnsherr"),
        },
        ChessPlayer {
            elo: 2800,
            age: 30,
            name: String::from("Charles Xavier"),
        },
    ];

    //ACT
    let result: Pronostics = get_pronostics(player_list);
    //ASSERT
    assert_eq!(result.champion.name, "Sherlock");
}

#[test]
fn returns_player_with_highest_elo_and_youngest_age() {
    //ARRANGE
    let player_list: Vec<ChessPlayer> = vec![
        ChessPlayer {
            elo: 3000,
            age: 33,
            name: String::from("Sherlock"),
        },
        ChessPlayer {
            elo: 3000,
            age: 32,
            name: String::from("Magnus"),
        },
        ChessPlayer {
            elo: 2999,
            age: 24,
            name: String::from("Francis"),
        },
        ChessPlayer {
            elo: 2999,
            age: 24,
            name: String::from("Moriarty"),
        },
        ChessPlayer {
            elo: 700,
            age: 30,
            name: String::from("Félix"),
        },
        ChessPlayer {
            elo: 2700,
            age: 31,
            name: String::from("Erik Lehnsherr"),
        },
        ChessPlayer {
            elo: 2800,
            age: 30,
            name: String::from("Charles Xavier"),
        },
    ];

    //ACT
    let result: Pronostics = get_pronostics(player_list);
    //ASSERT
    assert_eq!(result.champion.name, "Magnus");
}
#[test]
fn a_list_with_multiple_possible_champions_cant_be_empty() {
    //ARRANGE
    let player_list: Vec<ChessPlayer> = vec![
        ChessPlayer {
            elo: 3000,
            age: 30,
            name: String::from("Sherlock"),
        },
        ChessPlayer {
            elo: 3000,
            age: 30,
            name: String::from("Magnus"),
        },
        ChessPlayer {
            elo: 2999,
            age: 24,
            name: String::from("Francis"),
        },
        ChessPlayer {
            elo: 2999,
            age: 24,
            name: String::from("Moriarty"),
        },
        ChessPlayer {
            elo: 700,
            age: 30,
            name: String::from("Félix"),
        },
        ChessPlayer {
            elo: 2700,
            age: 31,
            name: String::from("Erik Lehnsherr"),
        },
        ChessPlayer {
            elo: 2800,
            age: 30,
            name: String::from("Charles Xavier"),
        },
    ];
    //ACT
    let result: Pronostics = get_pronostics(player_list);
    //ASSERT
    assert!(!result.possible_champions.is_empty());

}

#[test]
fn cannot_return_a_default_object_with_default_values() {
    //ARRANGE
    let player_list: Vec<ChessPlayer> = vec![
        ChessPlayer {
            elo: 3000,
            age: 33,
            name: String::from("Sherlock"),
        },
        ChessPlayer {
            elo: 3000,
            age: 32,
            name: String::from("Magnus"),
        },
        ChessPlayer {
            elo: 2999,
            age: 24,
            name: String::from("Francis"),
        },
        ChessPlayer {
            elo: 2999,
            age: 24,
            name: String::from("Moriarty"),
        },
        ChessPlayer {
            elo: 700,
            age: 30,
            name: String::from("Félix"),
        },
        ChessPlayer {
            elo: 2700,
            age: 31,
            name: String::from("Erik Lehnsherr"),
        },
        ChessPlayer {
            elo: 2800,
            age: 30,
            name: String::from("Charles Xavier"),
        },
    ];

    //ACT
    let result: Pronostics = get_pronostics(player_list);
    //ASSERT
    assert_ne!(result.champion, ChessPlayer::default());
}
#[test]
fn returns_all_players_with_highest_elo_and_same_age() {
    //ARRANGE
    let player_list: Vec<ChessPlayer> = vec![
        ChessPlayer {
            elo: 3000,
            age: 30,
            name: String::from("Kareem"),
        },
        ChessPlayer {
            elo: 3000,
            age: 30,
            name: String::from("Lebron"),
        },
        ChessPlayer {
            elo: 2900,
            age: 30,
            name: String::from("Boo"),
        },
        ChessPlayer {
            elo: 2999,
            age: 24,
            name: String::from("Moriarty"),
        },
        ChessPlayer {
            elo: 700,
            age: 30,
            name: String::from("Félix"),
        },
        ChessPlayer {
            elo: 2700,
            age: 31,
            name: String::from("Michael"),
        },
        ChessPlayer {
            elo: 2800,
            age: 30,
            name: String::from("Karl"),
        },
    ];

    let possible_champions = vec![
        ChessPlayer {
            elo: 3000,
            age: 30,
            name: String::from("Kareem"),
        },
        ChessPlayer {
            elo: 3000,
            age: 30,
            name: String::from("Lebron"),
        },
    ];
    //ACT
    let result: Pronostics = get_pronostics(player_list);
    //ASSERT
    assert_eq!(result.possible_champions, possible_champions);
}
