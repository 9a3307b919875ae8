use piastrelle::rules::RegolaInvalida;
use piastrelle::plane::Regola;
use piastrelle::Colorazione;
use piastrelle::Piano;

#[test]
fn test_regola_vuota() {
    let mut piano = Piano::new();
    assert_eq!(
        piano.regola(String::from("")),
        Err(RegolaInvalida::MancanzaCoefficienti)
    );
    assert_eq!(piano.regole.len(), 0);
}

#[test]
fn test_regola_solo_colore() {
    let mut piano = Piano::new();
    assert_eq!(
        piano.regola(String::from("rosso")),
        Err(RegolaInvalida::MancanzaCoefficienti)
    );
}

#[test]
fn test_regola_coppia_incompleta() {
    let mut piano = Piano::new();
    assert_eq!(
        piano.regola(String::from("rosso 1")),
        Err(RegolaInvalida::MancanzaCoefficienti)
    );
}

#[test]
fn test_regola_coefficiente_spaiato() {
    let mut piano = Piano::new();
    assert_eq!(
        piano.regola(String::from("rosso 1 verde 3 blu 2")),
        Err(RegolaInvalida::CoppieMalformate)
    );
}

#[test]
fn test_regola_coefficiente_non_numerico() {
    let mut piano = Piano::new();
    assert_eq!(
        piano.regola(String::from("rosso uno verde 3 blu")),
        Err(RegolaInvalida::CoefficienteInvalido)
    );
}

#[test]
fn test_regola_coefficiente_fuori_intervallo() {
    let mut piano = Piano::new();
    assert_eq!(
        piano.regola(String::from("rosso 9 verde")),
        Err(RegolaInvalida::CoefficienteInvalido)
    );
    assert!(piano.regola(String::from("rosso 8 verde")).is_ok());
    assert!(piano.regola(String::from("rosso 0 verde")).is_ok());
}

#[test]
fn test_regola_somma_limitata() {
    // The cap on the thresholds' sum is a policy of the parser: the
    // same definition passes without it and fails with it.
    assert!(Regola::parse("a 5 b 6 c", false).is_ok());
    assert_eq!(
        Regola::parse("a 5 b 6 c", true).err(),
        Some(RegolaInvalida::SommaEccessiva)
    );
    assert!(Regola::parse("a 5 b 3 c", true).is_ok());
}

#[test]
fn test_stampa_vuota() {
    let piano = Piano::new();
    assert_eq!(piano.stampa(), String::from("(\n)"));
}

#[test]
fn test_propaga_nessuna_regola() {
    // A tile no rule matches keeps its state and no counter moves.
    let mut piano = Piano::new();
    piano.colora(1, 1, String::from("g"), 4);
    piano.colora(1, 2, String::from("b"), 1);
    piano.regola(String::from("w 3 b")).unwrap();

    piano.propaga(1, 1);
    assert_eq!(
        piano.stato(1, 1),
        Some(Colorazione {
            colore: String::from("g"),
            intensita: 4
        })
    );
    assert_eq!(piano.regole[0].utilizzo, 0);
}

#[test]
fn test_propaga_accende_spenta() {
    // Propagation may light an off tile whose neighborhood matches a
    // rule; the fresh tile gets intensity one.
    let mut piano = Piano::new();
    piano.colora(0, 1, String::from("b"), 6);
    piano.regola(String::from("w 1 b")).unwrap();

    piano.propaga(0, 0);
    assert_eq!(
        piano.stato(0, 0),
        Some(Colorazione {
            colore: String::from("w"),
            intensita: 1
        })
    );
    assert_eq!(piano.regole[0].utilizzo, 1);
}

#[test]
fn test_regola_conta_vicini_finestra() {
    // "w 1 g 2 b": one green and two blue neighbors in the window
    // recolor the tile to white, keeping its intensity.
    let mut piano = Piano::new();
    piano.colora(1, 1, String::from("g"), 5);
    piano.colora(0, 0, String::from("g"), 1);
    piano.colora(2, 1, String::from("b"), 1);
    piano.colora(2, 2, String::from("b"), 1);
    piano.regola(String::from("w 1 g 2 b")).unwrap();

    piano.propaga(1, 1);
    assert_eq!(
        piano.stato(1, 1),
        Some(Colorazione {
            colore: String::from("w"),
            intensita: 5
        })
    );
    assert_eq!(piano.regole[0].utilizzo, 1);
}

#[test]
fn test_simula_non_modifica() {
    let mut piano = Piano::new();
    piano.colora(1, 1, String::from("g"), 5);
    piano.colora(2, 1, String::from("b"), 1);
    piano.regola(String::from("w 1 b")).unwrap();

    let esito = piano._simula_propagazione(1, 1);
    assert_eq!(esito, Some((0, String::from("w"))));
    // nothing moved
    assert_eq!(
        piano.stato(1, 1),
        Some(Colorazione {
            colore: String::from("g"),
            intensita: 5
        })
    );
    assert_eq!(piano.regole[0].utilizzo, 0);
}
