use piastrelle::Piano;

#[test]
fn test_pista_percorso_valido() {
    let mut piano = Piano::new();
    piano.colora(0, 0, String::from("r"), 2);
    piano.colora(0, 1, String::from("g"), 3);
    piano.colora(1, 2, String::from("b"), 5);
    piano.colora(1, 1, String::from("b"), 7);

    assert_eq!(piano.pista(0, 0, String::from("NN NE")), Some(10));
    assert_eq!(piano.pista(0, 0, String::from("NN NE SS")), Some(17));
}

#[test]
fn test_pista_partenza_spenta() {
    let mut piano = Piano::new();
    piano.colora(0, 1, String::from("g"), 3);

    assert_eq!(piano.pista(0, 0, String::from("NN")), None);
}

#[test]
fn test_pista_interrotta() {
    // The walk aborts at the first off tile, even though the tile two
    // steps further on is lit.
    let mut piano = Piano::new();
    piano.colora(0, 0, String::from("r"), 2);
    piano.colora(0, 2, String::from("g"), 3);

    assert_eq!(piano.pista(0, 0, String::from("NN NN")), None);
}

#[test]
fn test_pista_direzione_sconosciuta() {
    let mut piano = Piano::new();
    piano.colora(0, 0, String::from("r"), 2);
    piano.colora(0, 1, String::from("g"), 3);

    assert_eq!(piano.pista(0, 0, String::from("XX")), None);
    assert_eq!(piano.pista(0, 0, String::from("NN XX")), None);
    assert_eq!(piano.pista(0, 0, String::from("")), None);
}

#[test]
fn test_pista_tutte_le_direzioni() {
    let mut piano = Piano::new();
    for x in -2..=2 {
        for y in -2..=2 {
            piano.colora(x, y, String::from("r"), 1);
        }
    }

    // one step out and one step back in each diagonal and cardinal
    assert_eq!(
        piano.pista(0, 0, String::from("NN SS EE WW NE SW NW SE")),
        Some(9)
    );
}

#[test]
fn test_lung_stesso_punto() {
    let mut piano = Piano::new();
    piano.colora(3, -4, String::from("r"), 9);

    assert_eq!(piano.lung(3, -4, 3, -4), Some(9));
}

#[test]
fn test_lung_estremo_spento() {
    let mut piano = Piano::new();
    piano.colora(0, 0, String::from("r"), 1);

    assert_eq!(piano.lung(0, 0, 5, 5), None);
    assert_eq!(piano.lung(5, 5, 0, 0), None);
}

#[test]
fn test_lung_irraggiungibile() {
    let mut piano = Piano::new();
    piano.colora(0, 0, String::from("r"), 1);
    piano.colora(5, 5, String::from("r"), 1);

    assert_eq!(piano.lung(0, 0, 5, 5), None);
}

#[test]
fn test_lung_percorso_minimo() {
    // Two routes to (2, 0): over (1, 0) at cost 10 or over (1, 1) at
    // cost 1. The search must take the cheap detour.
    let mut piano = Piano::new();
    piano.colora(0, 0, String::from("r"), 2);
    piano.colora(1, 0, String::from("r"), 10);
    piano.colora(1, 1, String::from("r"), 1);
    piano.colora(2, 0, String::from("r"), 4);

    assert_eq!(piano.lung(0, 0, 2, 0), Some(7));
}

#[test]
fn test_lung_adiacente() {
    let mut piano = Piano::new();
    piano.colora(0, 0, String::from("r"), 2);
    piano.colora(1, 1, String::from("g"), 3);

    assert_eq!(piano.lung(0, 0, 1, 1), Some(5));
    assert_eq!(piano.lung(1, 1, 0, 0), Some(5));
}

#[test]
fn test_lung_catena() {
    let mut piano = Piano::new();
    piano.colora(0, 0, String::from("r"), 1);
    piano.colora(1, 0, String::from("r"), 2);
    piano.colora(2, 0, String::from("r"), 3);
    piano.colora(3, 0, String::from("r"), 4);

    assert_eq!(piano.lung(0, 0, 3, 0), Some(10));
}
