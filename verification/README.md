# risk_predictor_core

The verified core of a portfolio risk engine that a Python service calls to
price equity and European option positions, simulate the portfolio value with
geometric Brownian motion, and report value at risk.

- `src/` is the library, checked by Verus: reading `YYYY-MM-DD` dates and
  counting days in the proleptic Gregorian calendar (`calendar`), the Monte
  Carlo configuration, per-path seeds and sample-path selection
  (`monte_carlo`), market data lookup and instrument classification
  (`market`), histogram counting and value-at-risk tail sizes
  (`risk_measures`), and the plain request types (`models`, `pytypes`,
  `pricing`).
- `app/` is the Python extension module built with PyO3: the Python classes,
  the Black-Scholes formulas and the path simulation, all of which compute on
  `f64` values, and the glue that feeds the library.
- `tests/` exercises the library on concrete values.
